//! Server-side session state and the decisions of the authoritative tick
//! loop: admitting and removing sessions, applying client messages, and
//! fanning out newly generated chunks to authenticated clients.

use vstd::prelude::*;

use crate::directory::ChunkCollection;
use crate::protocol::{ClientMessage, ServerMessage};

verus! {

/// Last known pose of a player. Components are IEEE-754 f32 bit patterns;
/// the tick loop only stores and echoes them.
#[derive(Debug, Clone, Copy, PartialEq, Eq)]
pub struct PlayerPosition {
    pub eye: (u32, u32, u32),
    pub pitch: u32,
    pub yaw: u32,
}

impl Default for PlayerPosition {
    fn default() -> (r: Self)
        ensures
            r == (PlayerPosition { eye: (0u32, 0u32, 0u32), pitch: 0u32, yaw: 0u32 }),
    {
        PlayerPosition { eye: (0, 0, 0), pitch: 0, yaw: 0 }
    }
}

/// One connected session: whether it has authenticated, its last reported
/// pose, and the chunks already pushed to it.
#[derive(Debug)]
pub struct Client {
    pub logined: bool,
    pub player_pos: PlayerPosition,
    pub loaded_chunks: Vec<(i64, i64)>,
}

/// Ghost image of a session: the sent-chunk record as a set.
pub struct ClientView {
    pub logined: bool,
    pub player_pos: PlayerPosition,
    pub loaded_chunks: Set<(i64, i64)>,
}

impl View for Client {
    type V = ClientView;

    open spec fn view(&self) -> ClientView {
        ClientView {
            logined: self.logined,
            player_pos: self.player_pos,
            loaded_chunks: self.loaded_chunks@.to_set(),
        }
    }
}

impl Client {
    /// No chunk coordinate is recorded twice.
    pub open spec fn wf(self) -> bool {
        forall|i: int, j: int|
            0 <= i < j < self.loaded_chunks@.len() ==> self.loaded_chunks@[i]
                != self.loaded_chunks@[j]
    }

    /// A fresh, unauthenticated session with nothing sent yet.
    pub fn new() -> (r: Client)
        ensures
            r.wf(),
            !r@.logined,
            r@.player_pos == (PlayerPosition { eye: (0u32, 0u32, 0u32), pitch: 0u32, yaw: 0u32 }),
            r@.loaded_chunks == Set::<(i64, i64)>::empty(),
    {
        let r = Client { logined: false, player_pos: PlayerPosition::default(), loaded_chunks: Vec::new() };
        proof {
            assert(r@.loaded_chunks =~= Set::<(i64, i64)>::empty());
        }
        r
    }
}

/// The state a newly admitted session starts in.
pub open spec fn spec_new_client() -> ClientView {
    ClientView {
        logined: false,
        player_pos: PlayerPosition { eye: (0u32, 0u32, 0u32), pitch: 0u32, yaw: 0u32 },
        loaded_chunks: Set::empty(),
    }
}

/// A session-state error: the tick loop and the network layer disagree
/// about which sessions exist. Never fatal to the server.
#[derive(Debug, Clone, Copy, PartialEq, Eq, Structural)]
pub enum HandleInboundMessageError {
    RepeatedClient,
    MissingClient,
}

/// An event handed to the tick loop: a client message tagged with its
/// session, or a session coming or going.
#[derive(Debug)]
pub enum InboundMessage {
    Message { uuid: u128, client_msg: ClientMessage },
    AddClient { uuid: u128 },
    RemoveClient { uuid: u128 },
}

/// Where an outbound message goes.
#[derive(Debug, Clone, Copy, PartialEq, Eq)]
pub enum OutboundMessageDestination {
    Client(u128),
    Broadcast,
}

/// A server message together with its destination.
#[derive(Debug)]
pub struct OutboundMessage {
    pub dest: OutboundMessageDestination,
    pub server_msg: ServerMessage,
}

/// No session id occurs twice.
pub open spec fn unique_uuids(s: Seq<(u128, Client)>) -> bool {
    forall|i: int, j: int| 0 <= i < j < s.len() ==> (#[trigger] s[i]).0 != (#[trigger] s[j]).0
}

/// The session stored under `uuid`, if any.
pub open spec fn find_client(s: Seq<(u128, Client)>, uuid: u128) -> Option<Client>
    decreases s.len(),
{
    if s.len() == 0 {
        None
    } else if s.last().0 == uuid {
        Some(s.last().1)
    } else {
        find_client(s.drop_last(), uuid)
    }
}

proof fn lemma_find_client_char(s: Seq<(u128, Client)>, uuid: u128)
    ensures
        (find_client(s, uuid) is None) <==> (forall|i: int|
            0 <= i < s.len() ==> (#[trigger] s[i]).0 != uuid),
        (find_client(s, uuid) is Some) ==> exists|i: int|
            0 <= i < s.len() && (#[trigger] s[i]).0 == uuid && s[i].1 == find_client(s, uuid)->0,
    decreases s.len(),
{
    if s.len() > 0 {
        lemma_find_client_char(s.drop_last(), uuid);
        if s.last().0 == uuid {
            assert(s[s.len() - 1].0 == uuid);
        } else {
            assert(forall|i: int|
                0 <= i < s.len() - 1 ==> (#[trigger] s[i]).0 == s.drop_last()[i].0);
        }
    }
}

proof fn lemma_find_client_at(s: Seq<(u128, Client)>, uuid: u128, i: int)
    requires
        unique_uuids(s),
        0 <= i < s.len(),
        s[i].0 == uuid,
    ensures
        find_client(s, uuid) == Some(s[i].1),
    decreases s.len(),
{
    if i == s.len() - 1 {
        assert(s.last() == s[i]);
    } else {
        assert(s.last().0 != uuid);
        assert(s.drop_last()[i] == s[i]);
        lemma_find_client_at(s.drop_last(), uuid, i);
    }
}

proof fn lemma_find_client_update(s: Seq<(u128, Client)>, i: int, v: (u128, Client), uuid: u128)
    requires
        unique_uuids(s),
        0 <= i < s.len(),
        s[i].0 == v.0,
    ensures
        unique_uuids(s.update(i, v)),
        find_client(s.update(i, v), uuid) == if uuid == v.0 {
            Some(v.1)
        } else {
            find_client(s, uuid)
        },
    decreases s.len(),
{
    let t = s.update(i, v);
    assert(forall|j: int| 0 <= j < s.len() && j != i ==> t[j] == s[j]);
    assert(unique_uuids(t));
    if i == s.len() - 1 {
        assert(t.drop_last() =~= s.drop_last());
        if uuid != v.0 && s.last().0 == uuid {
            lemma_find_client_char(s.drop_last(), uuid);
            assert(forall|j: int| 0 <= j < s.len() - 1 ==> (#[trigger] s[j]).0 != uuid);
        }
    } else {
        assert(t.last() == s.last());
        assert(t.drop_last() =~= s.drop_last().update(i, v));
        lemma_find_client_update(s.drop_last(), i, v, uuid);
        if s.last().0 == uuid {
            assert(find_client(t, uuid) == Some(t.last().1));
        }
    }
}

proof fn lemma_find_client_push(s: Seq<(u128, Client)>, v: (u128, Client), uuid: u128)
    ensures
        find_client(s.push(v), uuid) == if uuid == v.0 {
            Some(v.1)
        } else {
            find_client(s, uuid)
        },
{
    assert(s.push(v).drop_last() =~= s);
    assert(s.push(v).last() == v);
}

proof fn lemma_find_client_remove(s: Seq<(u128, Client)>, i: int, uuid: u128)
    requires
        unique_uuids(s),
        0 <= i < s.len(),
    ensures
        unique_uuids(s.remove(i)),
        find_client(s.remove(i), uuid) == if uuid == s[i].0 {
            None::<Client>
        } else {
            find_client(s, uuid)
        },
    decreases s.len(),
{
    let t = s.remove(i);
    s.remove_ensures(i);
    assert(unique_uuids(t)) by {
        assert forall|a: int, b: int| 0 <= a < b < t.len() implies (#[trigger] t[a]).0 != (
        #[trigger] t[b]).0 by {
            let a2 = if a < i {
                a
            } else {
                a + 1
            };
            let b2 = if b < i {
                b
            } else {
                b + 1
            };
            assert(t[a] == s[a2] && t[b] == s[b2]);
        }
    }
    if uuid == s[i].0 {
        lemma_find_client_char(t, uuid);
        assert forall|j: int| 0 <= j < t.len() implies (#[trigger] t[j]).0 != uuid by {
            let j2 = if j < i {
                j
            } else {
                j + 1
            };
            assert(t[j] == s[j2]);
            assert(j2 != i);
        }
    } else {
        if i == s.len() - 1 {
            assert(t =~= s.drop_last());
            assert(s.last().0 != uuid);
        } else {
            assert(t.last() == s.last());
            assert(t.drop_last() =~= s.drop_last().remove(i));
            lemma_find_client_remove(s.drop_last(), i, uuid);
            assert(s.drop_last()[i] == s[i]);
        }
    }
}

/// The session map that a sequence of entries denotes.
pub open spec fn clients_map_of(s: Seq<(u128, Client)>) -> Map<u128, ClientView> {
    Map::new(
        |uuid: u128| find_client(s, uuid) is Some,
        |uuid: u128| (find_client(s, uuid)->0)@,
    )
}

/// The server's sessions, keyed by their opaque session ids.
pub struct Clients {
    clients: Vec<(u128, Client)>,
}

impl View for Clients {
    type V = Map<u128, ClientView>;

    closed spec fn view(&self) -> Map<u128, ClientView> {
        clients_map_of(self.clients@)
    }
}

impl Clients {
    pub closed spec fn wf(self) -> bool {
        &&& unique_uuids(self.clients@)
        &&& forall|i: int| 0 <= i < self.clients.len() ==> (#[trigger] self.clients@[i]).1.wf()
    }

    pub fn new() -> (r: Clients)
        ensures
            r.wf(),
            r@ == Map::<u128, ClientView>::empty(),
    {
        let r = Clients { clients: Vec::new() };
        proof {
            assert(r@ =~= Map::<u128, ClientView>::empty());
        }
        r
    }

    fn find_index(&self, uuid: u128) -> (r: Option<usize>)
        requires
            self.wf(),
        ensures
            match r {
                Some(i) => i < self.clients@.len() && self.clients@[i as int].0 == uuid
                    && self@.contains_key(uuid) && self@[uuid] == self.clients@[i as int].1@
                    && self.clients@[i as int].1.wf(),
                None => !self@.contains_key(uuid),
            },
    {
        let mut i: usize = 0;
        while i < self.clients.len()
            invariant
                self.wf(),
                i <= self.clients.len(),
                forall|j: int| 0 <= j < i ==> (#[trigger] self.clients@[j]).0 != uuid,
            decreases self.clients.len() - i,
        {
            if self.clients[i].0 == uuid {
                proof {
                    lemma_find_client_at(self.clients@, uuid, i as int);
                }
                return Some(i);
            }
            i = i + 1;
        }
        proof {
            lemma_find_client_char(self.clients@, uuid);
        }
        None
    }

    /// The session stored under `uuid`.
    pub fn get_client(&self, uuid: u128) -> (r: Result<&Client, HandleInboundMessageError>)
        requires
            self.wf(),
        ensures
            self@.contains_key(uuid) ==> (r matches Ok(c) && c@ == self@[uuid] && c.wf()),
            !self@.contains_key(uuid) ==> (r matches Err(e) && e
                == HandleInboundMessageError::MissingClient),
    {
        match self.find_index(uuid) {
            Some(i) => Ok(&self.clients[i].1),
            None => Err(HandleInboundMessageError::MissingClient),
        }
    }

    /// Admits a fresh session; rejects a session id already present.
    pub fn add_client(&mut self, uuid: u128, client: Client) -> (r: Result<
        (),
        HandleInboundMessageError,
    >)
        requires
            old(self).wf(),
            client.wf(),
        ensures
            final(self).wf(),
            old(self)@.contains_key(uuid) ==> r == Err::<(), HandleInboundMessageError>(
                HandleInboundMessageError::RepeatedClient,
            ) && final(self)@ == old(self)@,
            !old(self)@.contains_key(uuid) ==> r is Ok && final(self)@ == old(self)@.insert(
                uuid,
                client@,
            ),
    {
        match self.find_index(uuid) {
            Some(_) => Err(HandleInboundMessageError::RepeatedClient),
            None => {
                self.clients.push((uuid, client));
                proof {
                    assert forall|u: u128| true implies #[trigger] find_client(self.clients@, u)
                        == if u == uuid {
                        Some(client)
                    } else {
                        find_client(old(self).clients@, u)
                    } by {
                        lemma_find_client_push(old(self).clients@, (uuid, client), u);
                    }
                    lemma_find_client_char(old(self).clients@, uuid);
                    assert(unique_uuids(self.clients@)) by {
                        assert(forall|j: int|
                            0 <= j < old(self).clients@.len() ==> #[trigger] self.clients@[j]
                                == old(self).clients@[j]);
                    }
                    assert(self@ =~= old(self)@.insert(uuid, client@));
                }
                Ok(())
            },
        }
    }

    /// Removes a session; rejects an id that is not present.
    pub fn remove_client(&mut self, uuid: u128) -> (r: Result<(), HandleInboundMessageError>)
        requires
            old(self).wf(),
        ensures
            final(self).wf(),
            !old(self)@.contains_key(uuid) ==> r == Err::<(), HandleInboundMessageError>(
                HandleInboundMessageError::MissingClient,
            ) && final(self)@ == old(self)@,
            old(self)@.contains_key(uuid) ==> r is Ok && final(self)@ == old(self)@.remove(uuid),
    {
        match self.find_index(uuid) {
            Some(i) => {
                self.clients.remove(i);
                proof {
                    assert forall|u: u128| true implies #[trigger] find_client(self.clients@, u)
                        == if u == uuid {
                        None::<Client>
                    } else {
                        find_client(old(self).clients@, u)
                    } by {
                        lemma_find_client_remove(old(self).clients@, i as int, u);
                    }
                    lemma_find_client_remove(old(self).clients@, i as int, uuid);
                    assert(self@ =~= old(self)@.remove(uuid));
                }
                Ok(())
            },
            None => Err(HandleInboundMessageError::MissingClient),
        }
    }

    /// Marks a session authenticated.
    pub fn login(&mut self, uuid: u128) -> (r: Result<(), HandleInboundMessageError>)
        requires
            old(self).wf(),
        ensures
            final(self).wf(),
            !old(self)@.contains_key(uuid) ==> r == Err::<(), HandleInboundMessageError>(
                HandleInboundMessageError::MissingClient,
            ) && final(self)@ == old(self)@,
            old(self)@.contains_key(uuid) ==> r is Ok && final(self)@ == old(self)@.insert(
                uuid,
                ClientView {
                    logined: true,
                    player_pos: old(self)@[uuid].player_pos,
                    loaded_chunks: old(self)@[uuid].loaded_chunks,
                },
            ),
    {
        match self.find_index(uuid) {
            Some(i) => {
                self.clients[i].1.logined = true;
                proof {
                    let v = self.clients@[i as int];
                    assert forall|u: u128| true implies #[trigger] find_client(self.clients@, u)
                        == if u == uuid {
                        Some(v.1)
                    } else {
                        find_client(old(self).clients@, u)
                    } by {
                        lemma_find_client_update(old(self).clients@, i as int, v, u);
                        assert(self.clients@ =~= old(self).clients@.update(i as int, v));
                    }
                    lemma_find_client_update(old(self).clients@, i as int, v, uuid);
                    assert(self@ =~= old(self)@.insert(uuid, v.1@));
                }
                Ok(())
            },
            None => Err(HandleInboundMessageError::MissingClient),
        }
    }

    /// Records the last reported pose of a session.
    pub fn set_player_pos(&mut self, uuid: u128, pos: PlayerPosition) -> (r: Result<
        (),
        HandleInboundMessageError,
    >)
        requires
            old(self).wf(),
        ensures
            final(self).wf(),
            !old(self)@.contains_key(uuid) ==> r == Err::<(), HandleInboundMessageError>(
                HandleInboundMessageError::MissingClient,
            ) && final(self)@ == old(self)@,
            old(self)@.contains_key(uuid) ==> r is Ok && final(self)@ == old(self)@.insert(
                uuid,
                ClientView {
                    logined: old(self)@[uuid].logined,
                    player_pos: pos,
                    loaded_chunks: old(self)@[uuid].loaded_chunks,
                },
            ),
    {
        match self.find_index(uuid) {
            Some(i) => {
                self.clients[i].1.player_pos = pos;
                proof {
                    let v = self.clients@[i as int];
                    assert forall|u: u128| true implies #[trigger] find_client(self.clients@, u)
                        == if u == uuid {
                        Some(v.1)
                    } else {
                        find_client(old(self).clients@, u)
                    } by {
                        lemma_find_client_update(old(self).clients@, i as int, v, u);
                        assert(self.clients@ =~= old(self).clients@.update(i as int, v));
                    }
                    lemma_find_client_update(old(self).clients@, i as int, v, uuid);
                    assert(self@ =~= old(self)@.insert(uuid, v.1@));
                }
                Ok(())
            },
            None => Err(HandleInboundMessageError::MissingClient),
        }
    }
}

/// Applies one inbound event to the session table and returns the replies
/// it provokes. `Login` authenticates the session and answers with exactly
/// one `SetClientInfo`; `SetPlayerPos` records the pose whether or not the
/// session has authenticated; other client messages are accepted and
/// dropped. Session bookkeeping errors leave the state untouched.
pub fn handle_inbound_message(clients: &mut Clients, in_msg: InboundMessage) -> (r: Result<
    Vec<OutboundMessage>,
    HandleInboundMessageError,
>)
    requires
        old(clients).wf(),
    ensures
        final(clients).wf(),
        match in_msg {
            InboundMessage::AddClient { uuid } => {
                if old(clients)@.contains_key(uuid) {
                    r matches Err(e) && e == HandleInboundMessageError::RepeatedClient && final(clients)@ == old(clients)@
                } else {
                    r matches Ok(v) && v@.len() == 0 && final(clients)@ == old(clients)@.insert(
                        uuid,
                        spec_new_client(),
                    )
                }
            },
            InboundMessage::RemoveClient { uuid } => {
                if !old(clients)@.contains_key(uuid) {
                    r matches Err(e) && e == HandleInboundMessageError::MissingClient && final(clients)@ == old(clients)@
                } else {
                    r matches Ok(v) && v@.len() == 0 && final(clients)@ == old(clients)@.remove(
                        uuid,
                    )
                }
            },
            InboundMessage::Message { uuid, client_msg } => match client_msg {
                ClientMessage::Login => {
                    if !old(clients)@.contains_key(uuid) {
                        r matches Err(e) && e == HandleInboundMessageError::MissingClient && final(clients)@ == old(clients)@
                    } else {
                        r matches Ok(v) && v@.len() == 1 && v@[0].dest
                            == OutboundMessageDestination::Client(uuid) && v@[0].server_msg@
                            == (ServerMessage::SetClientInfo { uuid })@ && final(clients)@ == old(
                            clients,
                        )@.insert(
                            uuid,
                            ClientView {
                                logined: true,
                                player_pos: old(clients)@[uuid].player_pos,
                                loaded_chunks: old(clients)@[uuid].loaded_chunks,
                            },
                        )
                    }
                },
                ClientMessage::SetPlayerPos { eye, pitch, yaw } => {
                    if !old(clients)@.contains_key(uuid) {
                        r matches Err(e) && e == HandleInboundMessageError::MissingClient && final(clients)@ == old(clients)@
                    } else {
                        r matches Ok(v) && v@.len() == 0 && final(clients)@ == old(
                            clients,
                        )@.insert(
                            uuid,
                            ClientView {
                                logined: old(clients)@[uuid].logined,
                                player_pos: PlayerPosition { eye, pitch, yaw },
                                loaded_chunks: old(clients)@[uuid].loaded_chunks,
                            },
                        )
                    }
                },
                _ => r matches Ok(v) && v@.len() == 0 && final(clients)@ == old(clients)@,
            },
        },
{
    match in_msg {
        InboundMessage::AddClient { uuid } => {
            match clients.add_client(uuid, Client::new()) {
                Ok(_) => {
                    proof {
                        assert(final(clients)@ =~= old(clients)@.insert(uuid, spec_new_client()));
                    }
                    Ok(Vec::new())
                },
                Err(e) => Err(e),
            }
        },
        InboundMessage::RemoveClient { uuid } => {
            match clients.remove_client(uuid) {
                Ok(_) => Ok(Vec::new()),
                Err(e) => Err(e),
            }
        },
        InboundMessage::Message { uuid, client_msg } => {
            match client_msg {
                ClientMessage::Login => {
                    match clients.login(uuid) {
                        Ok(_) => {
                            let mut replies: Vec<OutboundMessage> = Vec::new();
                            replies.push(
                                OutboundMessage {
                                    dest: OutboundMessageDestination::Client(uuid),
                                    server_msg: ServerMessage::SetClientInfo { uuid },
                                },
                            );
                            Ok(replies)
                        },
                        Err(e) => Err(e),
                    }
                },
                ClientMessage::SetPlayerPos { eye, pitch, yaw } => {
                    match clients.set_player_pos(uuid, PlayerPosition { eye, pitch, yaw }) {
                        Ok(_) => Ok(Vec::new()),
                        Err(e) => Err(e),
                    }
                },
                _ => Ok(Vec::new()),
            }
        },
    }
}

/// Whether this tick broadcasts a keep-alive `Pong`: once every 20 ticks.
pub fn should_pong(tick: u64) -> (r: bool)
    ensures
        r == (tick % 20 == 0),
{
    tick % 20 == 0
}

/// The session and chunk coordinate that a fan-out message addresses, when
/// it is a directed `LoadChunk`.
pub open spec fn fanout_target(m: OutboundMessage) -> Option<(u128, (i64, i64))> {
    match m.dest {
        OutboundMessageDestination::Client(u) => match m.server_msg {
            ServerMessage::LoadChunk { cx, cz, .. } => Some((u, (cx, cz))),
            _ => None,
        },
        OutboundMessageDestination::Broadcast => None,
    }
}

/// What each fan-out message promises against the session table `cs` and
/// world `w` as they stood when the fan-out began: it carries a snapshot of
/// a generated chunk to an authenticated session that had not received it.
pub open spec fn fanout_msg_ok(
    m: OutboundMessage,
    cs: Map<u128, ClientView>,
    w: Map<(i64, i64), crate::directory::DirEntryView>,
) -> bool {
    match fanout_target(m) {
        Some(t) => {
            &&& cs.contains_key(t.0)
            &&& cs[t.0].logined
            &&& w.contains_key(t.1)
            &&& !cs[t.0].loaded_chunks.contains(t.1)
            &&& match m.server_msg {
                ServerMessage::LoadChunk { chunk, .. } => chunk.wf() && chunk@ == w[t.1].blocks,
                _ => false,
            }
        },
        None => false,
    }
}

proof fn lemma_to_set_push(s: Seq<(i64, i64)>, v: (i64, i64))
    ensures
        s.push(v).to_set() == s.to_set().insert(v),
{
    assert forall|x: (i64, i64)|
        s.push(v).to_set().contains(x) <==> s.to_set().insert(v).contains(x) by {
        if s.push(v).contains(x) {
            let i = choose|i: int| 0 <= i < s.push(v).len() && s.push(v)[i] == x;
            if i < s.len() {
                assert(s[i] == x);
            }
        }
        if s.contains(x) {
            let i = choose|i: int| 0 <= i < s.len() && s[i] == x;
            assert(s.push(v)[i] == x);
        }
        assert(s.push(v)[s.len() as int] == v);
    }
    assert(s.push(v).to_set() =~= s.to_set().insert(v));
}

/// The session a directed fan-out message addresses.
pub open spec fn fanout_uuid(m: OutboundMessage) -> u128
    recommends
        fanout_target(m) is Some,
{
    (fanout_target(m)->0).0
}

/// Whether `v` holds `k`.
fn contains_coord(v: &Vec<(i64, i64)>, k: (i64, i64)) -> (r: bool)
    ensures
        r == v@.contains(k),
{
    let mut i: usize = 0;
    while i < v.len()
        invariant
            i <= v.len(),
            forall|j: int| 0 <= j < i ==> v@[j] != k,
        decreases v.len() - i,
    {
        if v[i].0 == k.0 && v[i].1 == k.1 {
            return true;
        }
        i = i + 1;
    }
    false
}

/// Sends every not-yet-sent generated chunk to one authenticated session
/// and records each as sent.
#[verifier::rlimit(100)]
#[verifier::spinoff_prover]
fn send_new_chunks_to_client(
    client: &mut Client,
    uuid: u128,
    world: &ChunkCollection,
    coords: &Vec<(i64, i64)>,
    out: &mut Vec<OutboundMessage>,
)
    requires
        old(client).wf(),
        old(client).logined,
        world.wf(),
        forall|k: (i64, i64)| coords@.contains(k) <==> world@.contains_key(k),
        forall|i: int, j: int| 0 <= i < j < coords@.len() ==> coords@[i] != coords@[j],
    ensures
        final(client).wf(),
        final(client).logined == old(client).logined,
        final(client).player_pos == old(client).player_pos,
        final(client)@.loaded_chunks == old(client)@.loaded_chunks + world@.dom(),
        final(out)@.len() >= old(out)@.len(),
        forall|i: int| 0 <= i < old(out)@.len() ==> #[trigger] final(out)@[i] == old(out)@[i],
        forall|i: int|
            old(out)@.len() <= i < final(out)@.len() ==> ((#[trigger] fanout_target(
                final(out)@[i],
            )) matches Some(t) && t.0 == uuid && world@.contains_key(t.1) && !old(
                client,
            )@.loaded_chunks.contains(t.1) && match final(out)@[i].server_msg {
                ServerMessage::LoadChunk { chunk, .. } => chunk.wf() && chunk@ == world@[t.1].blocks,
                _ => false,
            }),
        forall|i1: int, i2: int|
            old(out)@.len() <= i1 < i2 < final(out)@.len() ==> fanout_target(final(out)@[i1])
                != fanout_target(final(out)@[i2]),
        forall|k: (i64, i64)|
            world@.contains_key(k) && !(#[trigger] old(client)@.loaded_chunks.contains(k))
                ==> exists|i: int|
                old(out)@.len() <= i < final(out)@.len() && #[trigger] fanout_target(
                    final(out)@[i],
                ) == Some((uuid, k)),
{
    let ghost len0 = out@.len() as int;
    let ghost loaded0 = client@.loaded_chunks;
    proof {
        world.lemma_wf_entries();
    }
    let mut ci: usize = 0;
    while ci < coords.len()
        invariant
            client.wf(),
            client.logined == old(client).logined,
            client.player_pos == old(client).player_pos,
            old(client).logined,
            world.wf(),
            forall|k: (i64, i64)| #[trigger] world@.contains_key(k) ==> world@[k].wf(),
            forall|k: (i64, i64)| coords@.contains(k) <==> world@.contains_key(k),
            forall|i: int, j: int| 0 <= i < j < coords@.len() ==> coords@[i] != coords@[j],
            ci <= coords@.len(),
            loaded0 == old(client)@.loaded_chunks,
            client@.loaded_chunks == loaded0 + coords@.take(ci as int).to_set(),
            len0 == old(out)@.len(),
            out@.len() >= len0,
            forall|i: int| 0 <= i < len0 ==> #[trigger] out@[i] == old(out)@[i],
            forall|i: int|
                len0 <= i < out@.len() ==> ((#[trigger] fanout_target(out@[i])) matches Some(t)
                    && t.0 == uuid && world@.contains_key(t.1) && !loaded0.contains(t.1)
                    && client@.loaded_chunks.contains(t.1) && match out@[i].server_msg {
                    ServerMessage::LoadChunk { chunk, .. } => chunk.wf() && chunk@
                        == world@[t.1].blocks,
                    _ => false,
                }),
            forall|i1: int, i2: int|
                len0 <= i1 < i2 < out@.len() ==> fanout_target(out@[i1]) != fanout_target(
                    out@[i2],
                ),
            forall|k: (i64, i64)|
                coords@.take(ci as int).contains(k) && !(#[trigger] loaded0.contains(k)) ==> exists|
                    i: int,
                |
                    len0 <= i < out@.len() && #[trigger] fanout_target(out@[i]) == Some((uuid, k)),
        decreases coords@.len() - ci,
    {
        let k = coords[ci];
        let ghost cpre = client@.loaded_chunks;
        let ghost outpre = out@;
        proof {
            assert(coords@.contains(coords@[ci as int]));
        }
        let already = contains_coord(&client.loaded_chunks, k);
        if !already {
            let entry = world.get_chunk(k);
            let snapshot = entry.chunk.snapshot();
            let ghost out0 = out@;
            let ghost lseq0 = client.loaded_chunks@;
            out.push(
                OutboundMessage {
                    dest: OutboundMessageDestination::Client(uuid),
                    server_msg: ServerMessage::LoadChunk { cx: k.0, cz: k.1, chunk: snapshot },
                },
            );
            client.loaded_chunks.push(k);
            proof {
                assert(out@ == out0.push(
                    OutboundMessage {
                        dest: OutboundMessageDestination::Client(uuid),
                        server_msg: ServerMessage::LoadChunk {
                            cx: k.0,
                            cz: k.1,
                            chunk: snapshot,
                        },
                    },
                ));
                assert(fanout_target(out@[out0.len() as int]) == Some((uuid, k)));
                assert(!cpre.contains(k));
                lemma_to_set_push(lseq0, k);
                assert(client@.loaded_chunks =~= cpre.insert(k));
                assert forall|i1: int, i2: int|
                    len0 <= i1 < i2 < out@.len() implies fanout_target(out@[i1])
                    != fanout_target(out@[i2]) by {
                    if i2 == out0.len() {
                        assert(out@[i1] == out0[i1]);
                        assert(cpre.contains((fanout_target(out0[i1])->0).1));
                    } else {
                        assert(out@[i1] == out0[i1] && out@[i2] == out0[i2]);
                    }
                }
            }
        }
        proof {
            assert(coords@.take(ci as int + 1) =~= coords@.take(ci as int).push(
                coords@[ci as int],
            ));
            lemma_to_set_push(coords@.take(ci as int), coords@[ci as int]);
            if already {
                assert(cpre.contains(k));
                assert(client@.loaded_chunks =~= loaded0 + coords@.take(ci as int + 1).to_set());
            } else {
                assert(client@.loaded_chunks =~= loaded0 + coords@.take(ci as int + 1).to_set());
            }
            assert forall|k2: (i64, i64)|
                coords@.take(ci as int + 1).contains(k2) && !(#[trigger] loaded0.contains(k2))
                    implies exists|i: int|
                len0 <= i < out@.len() && #[trigger] fanout_target(out@[i]) == Some(
                    (uuid, k2),
                ) by {
                if k2 == coords@[ci as int] {
                    if already {
                        assert(cpre.contains(k2));
                        assert(coords@.take(ci as int).to_set().contains(k2));
                        assert(coords@.take(ci as int).contains(k2));
                        let j = choose|j: int|
                            0 <= j < coords@.take(ci as int).len() && coords@.take(ci as int)[j]
                                == k2;
                        assert(coords@[j] == coords@[ci as int]);
                        assert(false);
                    } else {
                        assert(fanout_target(out@[outpre.len() as int]) == Some((uuid, k2)));
                    }
                } else {
                    assert(coords@.take(ci as int).contains(k2));
                    let i0 = choose|i: int|
                        len0 <= i < outpre.len() && fanout_target(outpre[i]) == Some((uuid, k2));
                    assert(out@[i0] == outpre[i0]);
                }
            }
        }
        ci = ci + 1;
    }
    proof {
        assert(coords@.take(coords@.len() as int) =~= coords@);
        assert(coords@.to_set() =~= world@.dom());
        assert(client@.loaded_chunks =~= old(client)@.loaded_chunks + world@.dom());
    }
}


/// Computes the chunk fan-out of one tick: for every authenticated session,
/// a `LoadChunk` snapshot of each generated chunk it has not yet received,
/// each recorded as sent so that no chunk is ever re-sent.
#[verifier::rlimit(100)]
#[verifier::spinoff_prover]
pub fn send_new_chunks(clients: &mut Clients, world: &ChunkCollection) -> (r: Vec<OutboundMessage>)
    requires
        old(clients).wf(),
        world.wf(),
    ensures
        final(clients).wf(),
        final(clients)@.dom() == old(clients)@.dom(),
        forall|u: u128|
            #[trigger] final(clients)@.contains_key(u) ==> {
                &&& final(clients)@[u].logined == old(clients)@[u].logined
                &&& final(clients)@[u].player_pos == old(clients)@[u].player_pos
                &&& (old(clients)@[u].logined ==> final(clients)@[u].loaded_chunks == old(
                    clients,
                )@[u].loaded_chunks + world@.dom())
                &&& (!old(clients)@[u].logined ==> final(clients)@[u].loaded_chunks == old(
                    clients,
                )@[u].loaded_chunks)
            },
        forall|i: int| 0 <= i < r@.len() ==> fanout_msg_ok(#[trigger] r@[i], old(clients)@, world@),
        forall|i1: int, i2: int|
            0 <= i1 < i2 < r@.len() ==> fanout_target(r@[i1]) != fanout_target(r@[i2]),
        forall|u: u128, k: (i64, i64)|
            old(clients)@.contains_key(u) && old(clients)@[u].logined && world@.contains_key(k)
                && !(#[trigger] old(clients)@[u].loaded_chunks.contains(k)) ==> exists|i: int|
                0 <= i < r@.len() && #[trigger] fanout_target(r@[i]) == Some((u, k)),
{
    let ghost m0 = old(clients)@;
    let ghost entries0 = old(clients).clients@;
    let coords = world.loaded_chunk_coordinates();
    let mut out: Vec<OutboundMessage> = Vec::new();
    let n = clients.clients.len();
    let mut ci: usize = 0;
    while ci < n
        invariant
            world.wf(),
            forall|k: (i64, i64)| coords@.contains(k) <==> world@.contains_key(k),
            forall|i: int, j: int| 0 <= i < j < coords@.len() ==> coords@[i] != coords@[j],
            unique_uuids(entries0),
            forall|j: int| 0 <= j < entries0.len() ==> (#[trigger] entries0[j]).1.wf(),
            m0 == clients_map_of(entries0),
            n == entries0.len(),
            clients.clients@.len() == n,
            ci <= n,
            forall|j: int|
                0 <= j < n ==> (#[trigger] clients.clients@[j]).0 == entries0[j].0,
            forall|j: int| 0 <= j < n ==> (#[trigger] clients.clients@[j]).1.wf(),
            forall|j: int|
                ci <= j < n ==> (#[trigger] clients.clients@[j]).1 == entries0[j].1,
            forall|j: int|
                0 <= j < ci ==> {
                    &&& (#[trigger] clients.clients@[j]).1.logined == entries0[j].1.logined
                    &&& clients.clients@[j].1.player_pos == entries0[j].1.player_pos
                    &&& (entries0[j].1.logined ==> clients.clients@[j].1@.loaded_chunks
                        == entries0[j].1@.loaded_chunks + world@.dom())
                    &&& (!entries0[j].1.logined ==> clients.clients@[j].1@.loaded_chunks
                        == entries0[j].1@.loaded_chunks)
                },
            forall|i: int| 0 <= i < out@.len() ==> fanout_msg_ok(#[trigger] out@[i], m0, world@),
            forall|i: int|
                0 <= i < out@.len() ==> exists|j: int|
                    0 <= j < ci && #[trigger] fanout_uuid(out@[i]) == (#[trigger] entries0[j]).0,
            forall|i1: int, i2: int|
                0 <= i1 < i2 < out@.len() ==> fanout_target(out@[i1]) != fanout_target(out@[i2]),
            forall|j: int, k: (i64, i64)|
                0 <= j < ci && (#[trigger] entries0[j]).1.logined && world@.contains_key(k) && !(
                #[trigger] entries0[j].1@.loaded_chunks.contains(k)) ==> exists|i: int|
                    0 <= i < out@.len() && #[trigger] fanout_target(out@[i]) == Some(
                        (entries0[j].0, k),
                    ),
        decreases n - ci,
    {
        let logined = clients.clients[ci].1.logined;
        if logined {
            let uuid = clients.clients[ci].0;
            let ghost pre = clients.clients@;
            let ghost out_pre = out@;
            proof {
                lemma_find_client_at(entries0, uuid, ci as int);
            }
            send_new_chunks_to_client(&mut clients.clients[ci].1, uuid, world, &coords, &mut out);
            proof {
                let cil = ci as int;
                assert(clients.clients@ =~= pre.update(
                    cil,
                    (uuid, clients.clients@[cil].1),
                ));
                assert forall|i: int| 0 <= i < out@.len() implies fanout_msg_ok(
                    #[trigger] out@[i],
                    m0,
                    world@,
                ) by {
                    if i < out_pre.len() {
                        assert(out@[i] == out_pre[i]);
                    } else {
                        assert(m0[uuid] == entries0[cil].1@);
                    }
                }
                assert forall|i: int| 0 <= i < out@.len() implies exists|j: int|
                    0 <= j < cil + 1 && #[trigger] fanout_uuid(out@[i]) == (
                    #[trigger] entries0[j]).0 by {
                    if i < out_pre.len() {
                        assert(out@[i] == out_pre[i]);
                        let j0 = choose|j: int|
                            0 <= j < cil && fanout_uuid(out_pre[i]) == entries0[j].0;
                        assert(fanout_uuid(out@[i]) == entries0[j0].0);
                    } else {
                        assert(fanout_uuid(out@[i]) == entries0[cil].0);
                    }
                }
                assert forall|i1: int, i2: int| 0 <= i1 < i2 < out@.len() implies fanout_target(
                    out@[i1],
                ) != fanout_target(out@[i2]) by {
                    if i2 >= out_pre.len() && i1 < out_pre.len() {
                        assert(out@[i1] == out_pre[i1]);
                        let j0 = choose|j: int|
                            0 <= j < cil && fanout_uuid(out_pre[i1]) == entries0[j].0;
                        assert(entries0[j0].0 != entries0[cil].0);
                        assert(fanout_uuid(out@[i2]) == uuid);
                    } else if i2 < out_pre.len() {
                        assert(out@[i1] == out_pre[i1] && out@[i2] == out_pre[i2]);
                    }
                }
                assert forall|j: int, k: (i64, i64)|
                    0 <= j < cil + 1 && (#[trigger] entries0[j]).1.logined && world@.contains_key(
                        k,
                    ) && !(#[trigger] entries0[j].1@.loaded_chunks.contains(k)) implies exists|
                    i: int,
                |
                    0 <= i < out@.len() && #[trigger] fanout_target(out@[i]) == Some(
                        (entries0[j].0, k),
                    ) by {
                    if j < cil {
                        let i0 = choose|i: int|
                            0 <= i < out_pre.len() && fanout_target(out_pre[i]) == Some(
                                (entries0[j].0, k),
                            );
                        assert(out@[i0] == out_pre[i0]);
                    } else {
                        let i0 = choose|i: int|
                            out_pre.len() <= i < out@.len() && fanout_target(out@[i]) == Some(
                                (uuid, k),
                            );
                        assert(fanout_target(out@[i0]) == Some((entries0[j].0, k)));
                    }
                }
            }
        }
        ci = ci + 1;
    }
    proof {
        assert(final(clients).wf()) by {
            assert(unique_uuids(final(clients).clients@)) by {
                assert forall|a: int, b: int|
                    0 <= a < b < final(clients).clients@.len() implies (#[trigger] final(clients).clients@[a]).0 != (#[trigger] final(clients).clients@[b]).0 by {
                    assert(final(clients).clients@[a].0 == entries0[a].0);
                    assert(final(clients).clients@[b].0 == entries0[b].0);
                }
            }
        }
        assert forall|u: u128| true implies #[trigger] final(clients)@.contains_key(u)
            == m0.contains_key(u) by {
            lemma_find_client_char(final(clients).clients@, u);
            lemma_find_client_char(entries0, u);
            if final(clients)@.contains_key(u) {
                let j = choose|j: int|
                    0 <= j < final(clients).clients@.len() && (#[trigger] final(clients).clients@[j]).0 == u && final(clients).clients@[j].1 == find_client(
                        final(clients).clients@,
                        u,
                    )->0;
                assert(entries0[j].0 == u);
            }
            if m0.contains_key(u) {
                let j = choose|j: int|
                    0 <= j < entries0.len() && (#[trigger] entries0[j]).0 == u && entries0[j].1
                        == find_client(entries0, u)->0;
                assert(final(clients).clients@[j].0 == u);
            }
        }
        assert(final(clients)@.dom() =~= m0.dom());
        assert forall|u: u128| #[trigger] final(clients)@.contains_key(u) implies {
            &&& final(clients)@[u].logined == m0[u].logined
            &&& final(clients)@[u].player_pos == m0[u].player_pos
            &&& (m0[u].logined ==> final(clients)@[u].loaded_chunks == m0[u].loaded_chunks
                + world@.dom())
            &&& (!m0[u].logined ==> final(clients)@[u].loaded_chunks == m0[u].loaded_chunks)
        } by {
            lemma_find_client_char(entries0, u);
            let j = choose|j: int|
                0 <= j < entries0.len() && (#[trigger] entries0[j]).0 == u && entries0[j].1
                    == find_client(entries0, u)->0;
            lemma_find_client_at(entries0, u, j);
            lemma_find_client_at(final(clients).clients@, u, j);
            assert(m0[u] == entries0[j].1@);
            assert(final(clients)@[u] == final(clients).clients@[j].1@);
        }
        assert forall|u: u128, k: (i64, i64)|
            m0.contains_key(u) && m0[u].logined && world@.contains_key(k) && !(
            #[trigger] m0[u].loaded_chunks.contains(k)) implies exists|i: int|
            0 <= i < out@.len() && #[trigger] fanout_target(out@[i]) == Some((u, k)) by {
            lemma_find_client_char(entries0, u);
            let j = choose|j: int|
                0 <= j < entries0.len() && (#[trigger] entries0[j]).0 == u && entries0[j].1
                    == find_client(entries0, u)->0;
            lemma_find_client_at(entries0, u, j);
            assert(m0[u] == entries0[j].1@);
            assert(entries0[j].1.logined && !entries0[j].1@.loaded_chunks.contains(k));
        }
    }
    out
}


} // verus!
