//! Players and the state of one game.
use vstd::prelude::*;

verus! {

/// A player as the contracts see it.
pub struct PlayerView {
    pub name: Seq<char>,
    pub points: i32,
}

/// A participant of a game, identified by a case-sensitive name.
pub struct Player {
    pub name: String,
    points: i32,
}

impl View for Player {
    type V = PlayerView;

    closed spec fn view(&self) -> PlayerView {
        PlayerView { name: self.name@, points: self.points }
    }
}

impl Player {
    /// A fresh player with no points.
    pub fn new(name: String) -> (r: Player)
        ensures
            r@ == (PlayerView { name: name@, points: 0 }),
    {
        Player { name, points: 0 }
    }

    /// Adds `points` to the player's total.
    pub fn add_points(&mut self, points: i32)
        requires
            i32::MIN <= old(self)@.points + points <= i32::MAX,
        ensures
            final(self)@ == (PlayerView {
                name: old(self)@.name,
                points: (old(self)@.points + points) as i32,
            }),
    {
        self.points = self.points + points;
    }

    /// Replaces the player's total by `points`.
    pub fn set_points(&mut self, points: i32)
        ensures
            final(self)@ == (PlayerView { name: old(self)@.name, points }),
    {
        self.points = points;
    }

    pub fn points(&self) -> (r: i32)
        ensures
            r == self@.points,
    {
        self.points
    }

    pub fn name(&self) -> (r: &String)
        ensures
            r@ == self@.name,
    {
        &self.name
    }
}

impl Clone for Player {
    fn clone(&self) -> (r: Player)
        ensures
            r@ == self@,
    {
        Player { name: self.name.clone(), points: self.points }
    }
}

/// The state of one game as the contracts see it.
pub struct GameStateView {
    pub players: Seq<PlayerView>,
    pub goal: u32,
}

impl GameStateView {
    /// No two players share a name.
    pub open spec fn names_unique(self) -> bool {
        forall|i: int, j: int|
            0 <= i < self.players.len() && 0 <= j < self.players.len() && i != j
                ==> #[trigger] self.players[i].name != #[trigger] self.players[j].name
    }

    pub open spec fn has_player(self, name: Seq<char>) -> bool {
        exists|i: int| 0 <= i < self.players.len() && #[trigger] self.players[i].name == name
    }

    /// The position of the player called `name` (meaningful when there is one).
    pub open spec fn player_index(self, name: Seq<char>) -> int {
        choose|i: int| 0 <= i < self.players.len() && #[trigger] self.players[i].name == name
    }

    /// A player called `name` with no points joins at the end, unless one is there already.
    pub open spec fn add_player(self, name: Seq<char>) -> GameStateView {
        if self.has_player(name) {
            self
        } else {
            GameStateView {
                players: self.players.push(PlayerView { name, points: 0 }),
                goal: self.goal,
            }
        }
    }

    /// The player called `name` leaves, if there is one.
    pub open spec fn remove_player(self, name: Seq<char>) -> GameStateView {
        if self.has_player(name) {
            GameStateView {
                players: self.players.remove(self.player_index(name)),
                goal: self.goal,
            }
        } else {
            self
        }
    }

    /// The total of the player called `name` becomes `points`, if there is such a player.
    pub open spec fn set_points(self, name: Seq<char>, points: i32) -> GameStateView {
        if self.has_player(name) {
            GameStateView {
                players: self.players.update(
                    self.player_index(name),
                    PlayerView { name, points },
                ),
                goal: self.goal,
            }
        } else {
            self
        }
    }
}

proof fn lemma_index_of_unique(g: GameStateView, name: Seq<char>, i: int)
    requires
        g.names_unique(),
        0 <= i < g.players.len(),
        g.players[i].name == name,
    ensures
        g.has_player(name),
        g.player_index(name) == i,
{
    assert(g.has_player(name));
    let j = g.player_index(name);
    assert(g.players[j].name == name);
}

/// Adding a player, removing one and setting a total keep the names of a game distinct.
pub proof fn lemma_names_stay_unique(g: GameStateView, name: Seq<char>, points: i32)
    requires
        g.names_unique(),
    ensures
        g.add_player(name).names_unique(),
        g.remove_player(name).names_unique(),
        g.set_points(name, points).names_unique(),
{
    if !g.has_player(name) {
        let a = g.add_player(name).players;
        assert forall|i: int, j: int|
            0 <= i < a.len() && 0 <= j < a.len() && i != j implies #[trigger] a[i].name
            != #[trigger] a[j].name by {
            if i < g.players.len() && j < g.players.len() {
                assert(g.players[i].name != g.players[j].name);
            } else if i < g.players.len() {
                assert(g.players[i].name == a[i].name);
            } else {
                assert(g.players[j].name == a[j].name);
            }
        }
    } else {
        let k = g.player_index(name);
        let r = g.remove_player(name).players;
        assert forall|i: int, j: int|
            0 <= i < r.len() && 0 <= j < r.len() && i != j implies #[trigger] r[i].name
            != #[trigger] r[j].name by {
            let oi = if i < k { i } else { i + 1 };
            let oj = if j < k { j } else { j + 1 };
            assert(r[i] == g.players[oi]);
            assert(r[j] == g.players[oj]);
            assert(g.players[oi].name != g.players[oj].name);
        }
        let u = g.set_points(name, points).players;
        assert forall|i: int, j: int|
            0 <= i < u.len() && 0 <= j < u.len() && i != j implies #[trigger] u[i].name
            != #[trigger] u[j].name by {
            assert(g.players[i].name != g.players[j].name);
        }
    }
}

/// Adding a player twice under one name leaves the game as adding it once.
pub proof fn lemma_add_player_idempotent(g: GameStateView, name: Seq<char>)
    ensures
        g.add_player(name).add_player(name) == g.add_player(name),
{
    if !g.has_player(name) {
        let a = g.add_player(name);
        assert(a.players[g.players.len() as int].name == name);
    }
}

/// A later total replaces an earlier one: totals are set, not added up.
pub proof fn lemma_set_points_last_wins(g: GameStateView, name: Seq<char>, first: i32, second: i32)
    requires
        g.names_unique(),
    ensures
        g.set_points(name, first).set_points(name, second) == g.set_points(name, second),
        g.has_player(name) ==> g.set_points(name, second).players[g.player_index(name)]
            == (PlayerView { name, points: second }),
{
    if g.has_player(name) {
        let k = g.player_index(name);
        let once = g.set_points(name, first);
        lemma_names_stay_unique(g, name, first);
        assert(once.players[k].name == name);
        lemma_index_of_unique(once, name, k);
        assert(once.set_points(name, second).players =~= g.set_points(name, second).players);
    }
}

/// A total for a player who is not in the game changes nothing.
pub proof fn lemma_unknown_player_ignored(g: GameStateView, name: Seq<char>, points: i32)
    requires
        !g.has_player(name),
    ensures
        g.set_points(name, points) == g,
{
}

/// The players of one game, in the order in which they joined, and its goal.
pub struct GameState {
    players: Vec<Player>,
    goal: u32,
}

impl View for GameState {
    type V = GameStateView;

    closed spec fn view(&self) -> GameStateView {
        GameStateView { players: self.players@.map_values(|p: Player| p@), goal: self.goal }
    }
}

impl GameState {
    #[verifier::type_invariant]
    spec fn inv(self) -> bool {
        self@.names_unique()
    }

    /// A game with no players and the given goal.
    pub fn new(goal: u32) -> (r: GameState)
        ensures
            r@ == (GameStateView { players: Seq::empty(), goal }),
    {
        let r = GameState { players: Vec::new(), goal };
        assert(r@.players =~= Seq::<PlayerView>::empty());
        r
    }

    /// Where the player called `name` stands in the list, if anywhere.
    pub fn position(&self, name: &String) -> (r: Option<usize>)
        ensures
            r matches Some(i) ==> i < self@.players.len() && self@.players[i as int].name == name@
                && i == self@.player_index(name@),
            r is None <==> !self@.has_player(name@),
    {
        proof {
            use_type_invariant(&*self);
        }
        let n = self.players.len();
        let mut i: usize = 0;
        while i < n
            invariant
                n == self.players@.len(),
                i <= n,
                self@.names_unique(),
                forall|k: int| 0 <= k < i ==> #[trigger] self@.players[k].name != name@,
            decreases n - i,
        {
            if self.players[i].name == *name {
                proof {
                    assert(self@.players[i as int].name == name@);
                }
                return Some(i);
            }
            i = i + 1;
        }
        None
    }

    /// Adds a player called `name` with no points at the end, unless the name is taken.
    /// Returns whether the player was added.
    pub fn add_player(&mut self, name: String) -> (added: bool)
        ensures
            added == !old(self)@.has_player(name@),
            final(self)@ == old(self)@.add_player(name@),
            final(self)@.names_unique(),
    {
        proof {
            use_type_invariant(&*self);
        }
        proof {
            lemma_names_stay_unique(self@, name@, 0);
        }
        match self.position(&name) {
            Some(_) => false,
            None => {
                let ghost before = self@;
                let mut players: Vec<Player> = Vec::new();
                std::mem::swap(&mut players, &mut self.players);
                players.push(Player::new(name));
                let ghost after = players@.map_values(|p: Player| p@);
                proof {
                    assert(after =~= before.players.push(PlayerView { name: name@, points: 0 }));
                }
                self.players = players;
                true
            }
        }
    }

    /// Removes the player called `name`, if there is one.
    pub fn remove_player(&mut self, name: String)
        ensures
            final(self)@ == old(self)@.remove_player(name@),
            final(self)@.names_unique(),
    {
        proof {
            use_type_invariant(&*self);
            lemma_names_stay_unique(self@, name@, 0);
        }
        if let Some(i) = self.position(&name) {
            let ghost before = self@;
            let mut players: Vec<Player> = Vec::new();
            std::mem::swap(&mut players, &mut self.players);
            players.remove(i);
            let ghost after = players@.map_values(|p: Player| p@);
            proof {
                assert(after =~= before.players.remove(i as int));
            }
            self.players = players;
        }
    }

    /// Sets the total of the player called `name` to `points`; does nothing when there is no
    /// such player.
    pub fn set_points(&mut self, name: &String, points: i32)
        ensures
            final(self)@ == old(self)@.set_points(name@, points),
            final(self)@.names_unique(),
    {
        proof {
            use_type_invariant(&*self);
            lemma_names_stay_unique(self@, name@, points);
        }
        if let Some(i) = self.position(name) {
            let ghost before = self@;
            let mut players: Vec<Player> = Vec::new();
            std::mem::swap(&mut players, &mut self.players);
            players[i].set_points(points);
            let ghost after = players@.map_values(|p: Player| p@);
            proof {
                assert(after =~= before.players.update(i as int, PlayerView { name: name@, points }));
            }
            self.players = players;
        }
    }

    pub fn players(&self) -> (r: &Vec<Player>)
        ensures
            r@.map_values(|p: Player| p@) == self@.players,
    {
        &self.players
    }

    pub fn goal(&self) -> (r: u32)
        ensures
            r == self@.goal,
    {
        self.goal
    }

    pub fn player_count(&self) -> (r: usize)
        ensures
            r == self@.players.len(),
    {
        self.players.len()
    }
}

impl Clone for GameState {
    /// A copy of the state, as published to the connections of the game.
    fn clone(&self) -> (r: GameState)
        ensures
            r@ == self@,
            r@.names_unique(),
    {
        proof {
            use_type_invariant(self);
        }
        let n = self.players.len();
        let mut players: Vec<Player> = Vec::new();
        let mut i: usize = 0;
        while i < n
            invariant
                n == self.players@.len(),
                i <= n,
                players@.len() == i,
                forall|k: int| 0 <= k < i ==> #[trigger] players@[k]@ == self.players@[k]@,
            decreases n - i,
        {
            players.push(self.players[i].clone());
            i = i + 1;
        }
        assert(players@.map_values(|p: Player| p@) =~= self@.players);
        GameState { players, goal: self.goal }
    }
}

} // verus!
