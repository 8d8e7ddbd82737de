//! The session actor: the one writer of a game's state and of its identity map.
use crate::model::{lemma_add_player_idempotent, lemma_names_stay_unique, GameState, GameStateView};
use vstd::prelude::*;

verus! {

/// The peer address of a client connection: the IP address as a number, whether it is an IPv6
/// address, and the port.
#[derive(Clone, Copy, Debug, PartialEq, Eq, Structural, Hash)]
pub struct ClientAddr {
    pub ip: u128,
    pub ipv6: bool,
    pub port: u16,
}

/// An event for the session actor.
#[allow(inconsistent_fields)]
#[derive(Debug)]
pub enum ClientMessage {
    /// A client asks to play under `player_name`. The address is that of the connection it came
    /// through, attached by the server; what a client sends in its place is ignored.
    PlayerJoin { client_addr: Option<ClientAddr>, player_name: String },
    /// The connection at `client_addr` was closed.
    ClientDisconnect { client_addr: ClientAddr },
    /// The total of `player_name` becomes `new_points`.
    PointEvent { player_name: String, new_points: i32 },
}

impl ClientMessage {
    /// A join carries the address of its connection.
    pub open spec fn is_attached(self) -> bool {
        match self {
            ClientMessage::PlayerJoin { client_addr, .. } => client_addr is Some,
            _ => true,
        }
    }

    /// Whether the message carries the address of its connection, when it needs one.
    pub fn carries_address(&self) -> (r: bool)
        ensures
            r == self.is_attached(),
    {
        match self {
            ClientMessage::PlayerJoin { client_addr, .. } => client_addr.is_some(),
            _ => true,
        }
    }
}

impl Clone for ClientMessage {
    fn clone(&self) -> (r: ClientMessage)
        ensures
            r == *self,
    {
        match self {
            ClientMessage::PlayerJoin { client_addr, player_name } => ClientMessage::PlayerJoin {
                client_addr: *client_addr,
                player_name: player_name.clone(),
            },
            ClientMessage::ClientDisconnect { client_addr } => ClientMessage::ClientDisconnect {
                client_addr: *client_addr,
            },
            ClientMessage::PointEvent { player_name, new_points } => ClientMessage::PointEvent {
                player_name: player_name.clone(),
                new_points: *new_points,
            },
        }
    }
}

/// A session as the contracts see it: the game, and which player each connection joined as.
pub struct SessionView {
    pub game: GameStateView,
    pub identities: Map<ClientAddr, Seq<char>>,
}

impl SessionView {
    /// The session after the actor has handled `msg`.
    pub open spec fn step(self, msg: ClientMessage) -> SessionView {
        match msg {
            ClientMessage::PlayerJoin { client_addr, player_name } => {
                if self.game.has_player(player_name@) {
                    self
                } else {
                    SessionView {
                        game: self.game.add_player(player_name@),
                        identities: self.identities.insert(client_addr.unwrap(), player_name@),
                    }
                }
            },
            ClientMessage::ClientDisconnect { client_addr } => {
                if self.identities.contains_key(client_addr) {
                    SessionView {
                        game: self.game.remove_player(self.identities[client_addr]),
                        identities: self.identities.remove(client_addr),
                    }
                } else {
                    self
                }
            },
            ClientMessage::PointEvent { player_name, new_points } => SessionView {
                game: self.game.set_points(player_name@, new_points),
                identities: self.identities,
            },
        }
    }

    /// The session after the actor has handled `msgs`, in order.
    pub open spec fn run(self, msgs: Seq<ClientMessage>) -> SessionView
        decreases msgs.len(),
    {
        if msgs.len() == 0 {
            self
        } else {
            self.run(msgs.drop_last()).step(msgs.last())
        }
    }
}

/// Whatever events a session handles, the names of its players stay distinct.
pub proof fn lemma_run_keeps_names_unique(s: SessionView, msgs: Seq<ClientMessage>)
    requires
        s.game.names_unique(),
    ensures
        s.run(msgs).game.names_unique(),
    decreases msgs.len(),
{
    if msgs.len() > 0 {
        let before = s.run(msgs.drop_last());
        lemma_run_keeps_names_unique(s, msgs.drop_last());
        match msgs.last() {
            ClientMessage::PlayerJoin { player_name, .. } => {
                lemma_names_stay_unique(before.game, player_name@, 0);
            },
            ClientMessage::ClientDisconnect { client_addr } => {
                if before.identities.contains_key(client_addr) {
                    lemma_names_stay_unique(before.game, before.identities[client_addr], 0);
                }
            },
            ClientMessage::PointEvent { player_name, new_points } => {
                lemma_names_stay_unique(before.game, player_name@, new_points);
            },
        }
    }
}

/// A join handled twice leaves the session as handling it once.
pub proof fn lemma_join_idempotent(s: SessionView, msg: ClientMessage)
    requires
        msg is PlayerJoin,
    ensures
        s.step(msg).step(msg) == s.step(msg),
{
    if let ClientMessage::PlayerJoin { player_name, .. } = msg {
        lemma_add_player_idempotent(s.game, player_name@);
        if !s.game.has_player(player_name@) {
            let g = s.game.add_player(player_name@);
            assert(g.players[s.game.players.len() as int].name == player_name@);
        }
    }
}

/// A connection that joins as a player and then closes takes that player out of the game. This
/// needs the name to be free at the join, or already to be the one that connection joined as:
/// otherwise the join is refused and the close leaves the other connection's player in place.
pub proof fn lemma_disconnect_removes_player(s: SessionView, addr: ClientAddr, name: String)
    requires
        s.game.names_unique(),
        !s.game.has_player(name@) || (s.identities.contains_key(addr) && s.identities[addr]
            == name@),
    ensures
        !s.step(ClientMessage::PlayerJoin { client_addr: Some(addr), player_name: name }).step(
            ClientMessage::ClientDisconnect { client_addr: addr },
        ).game.has_player(name@),
{
    let joined = s.step(ClientMessage::PlayerJoin { client_addr: Some(addr), player_name: name });
    let left = joined.step(ClientMessage::ClientDisconnect { client_addr: addr });
    lemma_names_stay_unique(s.game, name@, 0);
    assert(joined.identities.contains_key(addr) && joined.identities[addr] == name@);
    let g = joined.game;
    if !s.game.has_player(name@) {
        assert(g.players[s.game.players.len() as int].name == name@);
    }
    assert(g.has_player(name@));
    let k = g.player_index(name@);
    if left.game.has_player(name@) {
        let j = choose|j: int| 0 <= j < left.game.players.len() && #[trigger] left.game.players[j].name == name@;
        let oj = if j < k { j } else { j + 1 };
        assert(left.game.players[j] == g.players[oj]);
        assert(g.players[oj].name != g.players[k].name);
    }
}

/// The player that one connection joined as.
struct Identity {
    addr: ClientAddr,
    name: String,
}

spec fn addrs(ids: Seq<Identity>) -> Seq<ClientAddr> {
    ids.map_values(|id: Identity| id.addr)
}

spec fn identity_map(ids: Seq<Identity>) -> Map<ClientAddr, Seq<char>> {
    Map::new(
        |a: ClientAddr| addrs(ids).contains(a),
        |a: ClientAddr| ids[choose|i: int| 0 <= i < ids.len() && ids[i].addr == a].name@,
    )
}

proof fn lemma_identity_at(ids: Seq<Identity>, i: int)
    requires
        addrs(ids).no_duplicates(),
        0 <= i < ids.len(),
    ensures
        identity_map(ids).contains_key(ids[i].addr),
        identity_map(ids)[ids[i].addr] == ids[i].name@,
{
    let a = ids[i].addr;
    assert(addrs(ids)[i] == a);
    let j = choose|j: int| 0 <= j < ids.len() && ids[j].addr == a;
    assert(addrs(ids)[j] == a);
}

proof fn lemma_identity_push(ids: Seq<Identity>, id: Identity)
    requires
        addrs(ids).no_duplicates(),
        !identity_map(ids).contains_key(id.addr),
    ensures
        addrs(ids.push(id)).no_duplicates(),
        identity_map(ids.push(id)) == identity_map(ids).insert(id.addr, id.name@),
{
    let s = ids.push(id);
    assert(addrs(s) =~= addrs(ids).push(id.addr));
    assert(!addrs(ids).contains(id.addr));
    assert(addrs(s)[ids.len() as int] == id.addr);
    assert forall|a: ClientAddr| #[trigger] identity_map(s).contains_key(a)
        == identity_map(ids).insert(id.addr, id.name@).contains_key(a) by {
        if addrs(ids).contains(a) {
            let k = choose|k: int| 0 <= k < addrs(ids).len() && addrs(ids)[k] == a;
            assert(addrs(s)[k] == a);
        }
        if addrs(s).contains(a) && a != id.addr {
            let k = choose|k: int| 0 <= k < addrs(s).len() && addrs(s)[k] == a;
            assert(addrs(ids)[k] == a);
        }
    }
    assert forall|i: int| 0 <= i < s.len() implies identity_map(s)[s[i].addr]
        == identity_map(ids).insert(id.addr, id.name@)[s[i].addr] by {
        lemma_identity_at(s, i);
        if i < ids.len() {
            lemma_identity_at(ids, i);
        }
    }
    assert forall|a: ClientAddr| #[trigger] identity_map(s).contains_key(a) implies identity_map(
        s,
    )[a] == identity_map(ids).insert(id.addr, id.name@)[a] by {
        let k = choose|k: int| 0 <= k < addrs(s).len() && addrs(s)[k] == a;
        assert(s[k].addr == a);
    }
    assert(identity_map(s) =~= identity_map(ids).insert(id.addr, id.name@));
}

proof fn lemma_identity_update(ids: Seq<Identity>, i: int, id: Identity)
    requires
        addrs(ids).no_duplicates(),
        0 <= i < ids.len(),
        ids[i].addr == id.addr,
    ensures
        addrs(ids.update(i, id)).no_duplicates(),
        identity_map(ids.update(i, id)) == identity_map(ids).insert(id.addr, id.name@),
{
    let s = ids.update(i, id);
    assert(addrs(s) =~= addrs(ids));
    lemma_identity_at(ids, i);
    assert forall|j: int| 0 <= j < s.len() implies identity_map(s)[s[j].addr]
        == identity_map(ids).insert(id.addr, id.name@)[s[j].addr] by {
        lemma_identity_at(s, j);
        lemma_identity_at(ids, j);
        if j != i {
            assert(addrs(ids)[j] != addrs(ids)[i]);
        }
    }
    assert forall|a: ClientAddr| #[trigger] identity_map(s).contains_key(a) implies identity_map(
        s,
    )[a] == identity_map(ids).insert(id.addr, id.name@)[a] by {
        let k = choose|k: int| 0 <= k < addrs(s).len() && addrs(s)[k] == a;
        assert(s[k].addr == a);
    }
    assert(identity_map(s) =~= identity_map(ids).insert(id.addr, id.name@));
}

proof fn lemma_identity_remove(ids: Seq<Identity>, i: int)
    requires
        addrs(ids).no_duplicates(),
        0 <= i < ids.len(),
    ensures
        addrs(ids.remove(i)).no_duplicates(),
        identity_map(ids.remove(i)) == identity_map(ids).remove(ids[i].addr),
{
    let s = ids.remove(i);
    let a0 = ids[i].addr;
    assert(addrs(s) =~= addrs(ids).remove(i));
    assert forall|a: ClientAddr| #[trigger] identity_map(s).contains_key(a)
        == identity_map(ids).remove(a0).contains_key(a) by {
        if addrs(ids).contains(a) && a != a0 {
            let k = choose|k: int| 0 <= k < addrs(ids).len() && addrs(ids)[k] == a;
            assert(k != i);
            if k < i {
                assert(addrs(s)[k] == a);
            } else {
                assert(addrs(s)[k - 1] == a);
            }
        }
        if addrs(s).contains(a) {
            let k = choose|k: int| 0 <= k < addrs(s).len() && addrs(s)[k] == a;
            if k < i {
                assert(addrs(ids)[k] == a);
                assert(addrs(ids)[k] != addrs(ids)[i]);
            } else {
                assert(addrs(ids)[k + 1] == a);
                assert(addrs(ids)[k + 1] != addrs(ids)[i]);
            }
        }
    }
    assert forall|a: ClientAddr| #[trigger] identity_map(s).contains_key(a) implies identity_map(
        s,
    )[a] == identity_map(ids).remove(a0)[a] by {
        let k = choose|k: int| 0 <= k < addrs(s).len() && addrs(s)[k] == a;
        lemma_identity_at(s, k);
        if k < i {
            lemma_identity_at(ids, k);
        } else {
            lemma_identity_at(ids, k + 1);
        }
    }
    assert(identity_map(s) =~= identity_map(ids).remove(a0));
}

/// Which player each open connection joined as, one entry per connection.
struct IdentityTable {
    entries: Vec<Identity>,
}

impl View for IdentityTable {
    type V = Map<ClientAddr, Seq<char>>;

    closed spec fn view(&self) -> Map<ClientAddr, Seq<char>> {
        identity_map(self.entries@)
    }
}

impl IdentityTable {
    #[verifier::type_invariant]
    spec fn inv(self) -> bool {
        addrs(self.entries@).no_duplicates()
    }

    fn new() -> (r: IdentityTable)
        ensures
            r@ == Map::<ClientAddr, Seq<char>>::empty(),
    {
        let r = IdentityTable { entries: Vec::new() };
        assert(r@ =~= Map::<ClientAddr, Seq<char>>::empty());
        r
    }

    /// Records that the connection at `addr` plays as `name`, replacing what it was recorded as.
    fn record(&mut self, addr: ClientAddr, name: String)
        ensures
            final(self)@ == old(self)@.insert(addr, name@),
    {
        proof {
            use_type_invariant(&*self);
        }
        let id = Identity { addr, name };
        let mut ids: Vec<Identity> = Vec::new();
        std::mem::swap(&mut ids, &mut self.entries);
        match find_addr(&ids, addr) {
            Some(i) => {
                proof {
                    lemma_identity_update(ids@, i as int, id);
                }
                ids.set(i, id);
            },
            None => {
                proof {
                    lemma_identity_push(ids@, id);
                }
                ids.push(id);
            },
        }
        self.entries = ids;
    }

    /// Erases the entry of the connection at `addr` and returns the name it held, if any.
    fn forget(&mut self, addr: ClientAddr) -> (r: Option<String>)
        ensures
            old(self)@.contains_key(addr) ==> (r matches Some(name) && name@ == old(self)@[addr]),
            !old(self)@.contains_key(addr) ==> r is None && final(self)@ == old(self)@,
            final(self)@ == old(self)@.remove(addr),
    {
        proof {
            use_type_invariant(&*self);
        }
        match find_addr(&self.entries, addr) {
            Some(i) => {
                proof {
                    lemma_identity_at(self.entries@, i as int);
                    lemma_identity_remove(self.entries@, i as int);
                }
                let mut ids: Vec<Identity> = Vec::new();
                std::mem::swap(&mut ids, &mut self.entries);
                let id = ids.remove(i);
                self.entries = ids;
                Some(id.name)
            },
            None => {
                assert(self@.remove(addr) =~= self@);
                None
            },
        }
    }

    fn len(&self) -> (r: usize)
        ensures
            r == self@.len(),
    {
        proof {
            use_type_invariant(self);
            let ids = self.entries@;
            assert(identity_map(ids).dom() =~= addrs(ids).to_set());
            addrs(ids).unique_seq_to_set();
        }
        self.entries.len()
    }
}

/// Owns one game's state and the map from connections to the players they joined as, and
/// applies the events of the game one at a time.
pub struct SessionActor {
    game: GameState,
    identities: IdentityTable,
}

impl View for SessionActor {
    type V = SessionView;

    closed spec fn view(&self) -> SessionView {
        SessionView { game: self.game@, identities: self.identities@ }
    }
}

impl SessionActor {
    /// A session with no players and the given goal.
    pub fn new(goal: u32) -> (r: SessionActor)
        ensures
            r@.game == (GameStateView { players: Seq::empty(), goal }),
            r@.identities == Map::<ClientAddr, Seq<char>>::empty(),
    {
        SessionActor { game: GameState::new(goal), identities: IdentityTable::new() }
    }

    /// Applies one event and returns the snapshot to publish: a copy of the game after it.
    pub fn handle(&mut self, msg: ClientMessage) -> (snapshot: GameState)
        requires
            msg.is_attached(),
        ensures
            final(self)@ == old(self)@.step(msg),
            snapshot@ == final(self)@.game,
            snapshot@.names_unique(),
    {
        match msg {
            ClientMessage::PlayerJoin { client_addr, player_name } => {
                let addr = client_addr.unwrap();
                let name = player_name.clone();
                if self.game.add_player(player_name) {
                    self.identities.record(addr, name);
                }
            },
            ClientMessage::ClientDisconnect { client_addr } => {
                if let Some(name) = self.identities.forget(client_addr) {
                    self.game.remove_player(name);
                }
            },
            ClientMessage::PointEvent { player_name, new_points } => {
                self.game.set_points(&player_name, new_points);
            },
        }
        self.game.clone()
    }

    /// Applies `msgs` in order and returns the snapshot published after each of them.
    pub fn process_events(&mut self, msgs: Vec<ClientMessage>) -> (snapshots: Vec<GameState>)
        requires
            forall|i: int| 0 <= i < msgs@.len() ==> (#[trigger] msgs@[i]).is_attached(),
        ensures
            final(self)@ == old(self)@.run(msgs@),
            snapshots@.len() == msgs@.len(),
            forall|i: int|
                0 <= i < msgs@.len() ==> (#[trigger] snapshots@[i])@ == old(self)@.run(
                    msgs@.take(i + 1),
                ).game,
    {
        let ghost start = self@;
        let n = msgs.len();
        let mut snapshots: Vec<GameState> = Vec::new();
        let mut i: usize = 0;
        while i < n
            invariant
                n == msgs@.len(),
                i <= n,
                forall|k: int| 0 <= k < msgs@.len() ==> (#[trigger] msgs@[k]).is_attached(),
                self@ == start.run(msgs@.take(i as int)),
                snapshots@.len() == i,
                forall|k: int|
                    0 <= k < i ==> (#[trigger] snapshots@[k])@ == start.run(
                        msgs@.take(k + 1),
                    ).game,
            decreases n - i,
        {
            let msg = msgs[i].clone();
            proof {
                assert(msgs@.take(i + 1).drop_last() =~= msgs@.take(i as int));
                assert(msgs@.take(i + 1).last() == msgs@[i as int]);
            }
            let snapshot = self.handle(msg);
            snapshots.push(snapshot);
            i = i + 1;
        }
        assert(msgs@.take(n as int) =~= msgs@);
        snapshots
    }

    /// The game as it stands.
    pub fn game(&self) -> (r: &GameState)
        ensures
            r@ == self@.game,
    {
        &self.game
    }

    /// How many connections have joined as a player and are still open.
    pub fn identity_count(&self) -> (r: usize)
        ensures
            r == self@.identities.len(),
    {
        self.identities.len()
    }
}

/// Where the identity of the connection at `addr` stands in `ids`, if anywhere.
fn find_addr(ids: &Vec<Identity>, addr: ClientAddr) -> (r: Option<usize>)
    ensures
        r matches Some(i) ==> i < ids@.len() && ids@[i as int].addr == addr,
        r is None <==> !identity_map(ids@).contains_key(addr),
{
    let n = ids.len();
    let mut i: usize = 0;
    while i < n
        invariant
            n == ids@.len(),
            i <= n,
            forall|k: int| 0 <= k < i ==> #[trigger] ids@[k].addr != addr,
        decreases n - i,
    {
        if ids[i].addr == addr {
            assert(addrs(ids@)[i as int] == addr);
            return Some(i);
        }
        i = i + 1;
    }
    proof {
        if addrs(ids@).contains(addr) {
            let k = choose|k: int| 0 <= k < addrs(ids@).len() && addrs(ids@)[k] == addr;
            assert(ids@[k].addr == addr);
        }
    }
    None
}

} // verus!
