//! The session registry: the pool of free ports and the sessions that hold the others.
use vstd::prelude::*;

verus! {

/// tokio's handle to a spawned task, carried opaquely: a session's task is held here only so
/// that the registry can ask whether it has ended.
#[verifier::external_type_specification]
#[verifier::external_body]
#[verifier::reject_recursive_types(T)]
pub struct ExJoinHandle<T>(tokio::task::JoinHandle<T>);

/// tokio's error for a task that failed, which appears in the handle's `Future` impl; opaque
/// and never inspected here.
#[verifier::external_type_specification]
#[verifier::external_body]
pub struct ExJoinError(tokio::task::JoinError);

/// Relies on tokio's `JoinHandle::is_finished`: whether the task has ended. It depends on when
/// it is asked, so nothing is stated of the result.
pub assume_specification<T>[ tokio::task::JoinHandle::<T>::is_finished ](
    h: &tokio::task::JoinHandle<T>,
) -> bool;

/// A running session: the port it listens on and the task that runs it.
pub struct GameSession {
    pub port: u16,
    pub handle: tokio::task::JoinHandle<()>,
}

impl GameSession {
    pub fn new(port: u16, handle: tokio::task::JoinHandle<()>) -> (r: GameSession)
        ensures
            r.port == port,
            r.handle == handle,
    {
        GameSession { port, handle }
    }
}

/// The ports of `ports` whose flag in `flags` (by position) is `want`, in order.
pub open spec fn select(ports: Seq<u16>, flags: Seq<bool>, want: bool) -> Seq<u16>
    decreases ports.len(),
{
    if ports.len() == 0 {
        Seq::empty()
    } else {
        let rest = select(ports.drop_last(), flags, want);
        if flags[ports.len() - 1] == want {
            rest.push(ports.last())
        } else {
            rest
        }
    }
}

proof fn lemma_push(s: Seq<u16>, x: u16)
    ensures
        forall|p: u16| #[trigger] s.push(x).contains(p) <==> (s.contains(p) || p == x),
        s.no_duplicates() && !s.contains(x) ==> s.push(x).no_duplicates(),
{
    assert forall|p: u16| #[trigger] s.push(x).contains(p) <==> (s.contains(p) || p == x) by {
        if s.push(x).contains(p) {
            let k = choose|k: int| 0 <= k < s.push(x).len() && s.push(x)[k] == p;
            if k < s.len() {
                assert(s[k] == p);
            }
        }
        if s.contains(p) {
            let k = choose|k: int| 0 <= k < s.len() && s[k] == p;
            assert(s.push(x)[k] == p);
        }
        assert(s.push(x)[s.len() as int] == x);
    }
    if s.no_duplicates() && !s.contains(x) {
        assert forall|i: int, j: int|
            0 <= i < s.push(x).len() && 0 <= j < s.push(x).len() && i != j implies s.push(x)[i]
            != s.push(x)[j] by {
            if i < s.len() && j < s.len() {
                assert(s[i] != s[j]);
            } else if i < s.len() {
                assert(s.contains(s[i]));
            } else {
                assert(s.contains(s[j]));
            }
        }
    }
}

proof fn lemma_select(ports: Seq<u16>, flags: Seq<bool>)
    requires
        ports.no_duplicates(),
        ports.len() <= flags.len(),
    ensures
        select(ports, flags, true).no_duplicates(),
        select(ports, flags, false).no_duplicates(),
        forall|p: u16| #[trigger] select(ports, flags, true).contains(p) ==> ports.contains(p),
        forall|p: u16| #[trigger] select(ports, flags, false).contains(p) ==> ports.contains(p),
        forall|p: u16|
            #[trigger] ports.contains(p) ==> (select(ports, flags, true).contains(p) <==> !select(
                ports,
                flags,
                false,
            ).contains(p)),
        forall|i: int|
            0 <= i < ports.len() && flags[i] ==> #[trigger] select(ports, flags, true).contains(
                ports[i],
            ),
    decreases ports.len(),
{
    if ports.len() > 0 {
        let init = ports.drop_last();
        let last = ports.last();
        assert(ports =~= init.push(last));
        assert(init.no_duplicates());
        lemma_select(init, flags);
        lemma_push(init, last);
        assert(!init.contains(last)) by {
            if init.contains(last) {
                let k = choose|k: int| 0 <= k < init.len() && init[k] == last;
                assert(ports[k] == ports[ports.len() - 1]);
            }
        }
        let t = select(init, flags, true);
        let f = select(init, flags, false);
        lemma_push(t, last);
        lemma_push(f, last);
        assert forall|i: int|
            0 <= i < ports.len() && flags[i] implies #[trigger] select(ports, flags, true).contains(
                ports[i],
            ) by {
            if i < init.len() {
                assert(init[i] == ports[i]);
                assert(t.contains(init[i]));
            }
        }
        if flags[ports.len() - 1] {
            assert(select(ports, flags, true) == t.push(last));
            assert(select(ports, flags, false) == f);
        } else {
            assert(select(ports, flags, true) == t);
            assert(select(ports, flags, false) == f.push(last));
        }
    }
}

proof fn lemma_concat(a: Seq<u16>, b: Seq<u16>)
    ensures
        forall|p: u16| #[trigger] (a + b).contains(p) <==> (a.contains(p) || b.contains(p)),
        a.no_duplicates() && b.no_duplicates() && (forall|p: u16|
            #[trigger] a.contains(p) ==> !b.contains(p)) ==> (a + b).no_duplicates(),
{
    assert forall|p: u16| #[trigger] (a + b).contains(p) <==> (a.contains(p) || b.contains(p)) by {
        if (a + b).contains(p) {
            let k = choose|k: int| 0 <= k < (a + b).len() && (a + b)[k] == p;
            if k < a.len() {
                assert(a[k] == p);
            } else {
                assert(b[k - a.len()] == p);
            }
        }
        if a.contains(p) {
            let k = choose|k: int| 0 <= k < a.len() && a[k] == p;
            assert((a + b)[k] == p);
        }
        if b.contains(p) {
            let k = choose|k: int| 0 <= k < b.len() && b[k] == p;
            assert((a + b)[k + a.len()] == p);
        }
    }
    if a.no_duplicates() && b.no_duplicates() && (forall|p: u16|
        #[trigger] a.contains(p) ==> !b.contains(p)) {
        assert forall|i: int, j: int|
            0 <= i < (a + b).len() && 0 <= j < (a + b).len() && i != j implies (a + b)[i] != (a
                + b)[j] by {
            if i < a.len() && j < a.len() {
                assert(a[i] != a[j]);
            } else if i >= a.len() && j >= a.len() {
                assert(b[i - a.len()] != b[j - a.len()]);
            } else if i < a.len() {
                assert(a.contains(a[i]));
                assert(b.contains(b[j - a.len()]));
            } else {
                assert(a.contains(a[j]));
                assert(b.contains(b[i - a.len()]));
            }
        }
    }
}

/// The request by which a client asks the orchestrator for a new session.
pub const CREATE_GAME_REQUEST: &'static str = "CreateGame";

/// The registry as the contracts see it: the free ports, from the bottom of the stack to its
/// top, and the ports of the sessions it tracks, in the order they were registered.
pub struct RegistryView {
    pub available: Seq<u16>,
    pub live: Seq<u16>,
}

impl RegistryView {
    /// Each port is held at most once: by the pool or by one session.
    pub open spec fn exclusive(self) -> bool {
        &&& self.available.no_duplicates()
        &&& self.live.no_duplicates()
        &&& forall|p: u16| #[trigger] self.available.contains(p) ==> !self.live.contains(p)
    }

    /// The registry once the sessions flagged in `finished` have been dropped and their ports
    /// pushed back on the pool, in the order of the sessions.
    pub open spec fn reclaim(self, finished: Seq<bool>) -> RegistryView {
        RegistryView {
            available: self.available + select(self.live, finished, true),
            live: select(self.live, finished, false),
        }
    }

    /// The registry once the top of the pool has been taken.
    pub open spec fn take_port(self) -> RegistryView {
        if self.available.len() == 0 {
            self
        } else {
            RegistryView { available: self.available.drop_last(), live: self.live }
        }
    }

    /// The registry once the top of the pool has been handed to a session that was registered.
    pub open spec fn grant(self) -> RegistryView {
        RegistryView {
            available: self.available.drop_last(),
            live: self.live.push(self.available.last()),
        }
    }

    /// The registry after `n` requests for a new game, each granted and registered, while no
    /// session ended.
    pub open spec fn grant_n(self, n: nat) -> RegistryView
        decreases n,
    {
        if n == 0 {
            self
        } else {
            self.grant_n((n - 1) as nat).grant()
        }
    }

    /// Whether `port` is held, by the pool or by a session.
    pub open spec fn holds(self, port: u16) -> bool {
        self.available.contains(port) || self.live.contains(port)
    }
}

/// Reclaiming finished sessions, taking the top of the pool, and registering a session on a
/// port that nobody holds each keep every port held at most once; a port taken from the pool is
/// held by nobody until its session is registered.
pub proof fn lemma_ports_stay_exclusive(reg: RegistryView, finished: Seq<bool>, port: u16)
    requires
        reg.exclusive(),
        finished.len() == reg.live.len(),
    ensures
        reg.reclaim(finished).exclusive(),
        reg.take_port().exclusive(),
        reg.available.len() > 0 ==> !reg.take_port().holds(reg.available.last()),
        !reg.holds(port) ==> (RegistryView {
            available: reg.available,
            live: reg.live.push(port),
        }).exclusive(),
{
    let all = reg.live;
    let fresh = select(all, finished, true);
    lemma_select(all, finished);
    lemma_concat(reg.available, fresh);
    assert forall|p: u16| #[trigger] (reg.available + fresh).contains(p) implies !select(
        all,
        finished,
        false,
    ).contains(p) by {
        if reg.available.contains(p) && select(all, finished, false).contains(p) {
            assert(all.contains(p));
        }
    }
    assert forall|p: u16| #[trigger] reg.available.contains(p) implies !fresh.contains(p) by {
        if fresh.contains(p) {
            assert(all.contains(p));
        }
    }
    if reg.available.len() > 0 {
        lemma_take_top(reg);
    }
    lemma_push(reg.live, port);
}

proof fn lemma_take_top(reg: RegistryView)
    requires
        reg.exclusive(),
        reg.available.len() > 0,
    ensures
        reg.take_port().exclusive(),
        !reg.take_port().holds(reg.available.last()),
        forall|p: u16| #[trigger] reg.available.drop_last().contains(p) ==> reg.available.contains(p),
{
    let a = reg.available;
    assert(a =~= a.drop_last().push(a.last()));
    lemma_push(a.drop_last(), a.last());
    assert(!a.drop_last().contains(a.last())) by {
        if a.drop_last().contains(a.last()) {
            let k = choose|k: int| 0 <= k < a.drop_last().len() && a.drop_last()[k] == a.last();
            assert(a[k] == a[a.len() - 1]);
        }
    }
    assert(a.drop_last().no_duplicates());
    assert forall|p: u16| #[trigger] a.drop_last().contains(p) implies a.contains(p) by {
        assert(a.drop_last().push(a.last()).contains(p));
    }
    assert(a.contains(a.last()));
}

/// When no session has ended, reclaiming changes nothing.
pub proof fn lemma_nothing_to_reclaim(reg: RegistryView, finished: Seq<bool>)
    requires
        finished.len() == reg.live.len(),
        forall|i: int| 0 <= i < finished.len() ==> !finished[i],
    ensures
        reg.reclaim(finished) == reg,
{
    lemma_select_none(reg.live, finished);
    assert(reg.available + Seq::<u16>::empty() =~= reg.available);
}

proof fn lemma_select_none(ports: Seq<u16>, flags: Seq<bool>)
    requires
        ports.len() <= flags.len(),
        forall|i: int| 0 <= i < ports.len() ==> !flags[i],
    ensures
        select(ports, flags, true) == Seq::<u16>::empty(),
        select(ports, flags, false) == ports,
    decreases ports.len(),
{
    if ports.len() > 0 {
        lemma_select_none(ports.drop_last(), flags);
        assert(ports.drop_last().push(ports.last()) =~= ports);
    }
}

/// As many requests for a new game as the pool has ports are granted, on distinct ports that no
/// other session holds, and leave the pool empty, so that the next request is answered that no
/// port is free (while no session ends, reclaiming changes nothing).
pub proof fn lemma_pool_exhausts(reg: RegistryView, n: nat)
    requires
        reg.exclusive(),
        n <= reg.available.len(),
    ensures
        reg.grant_n(n).exclusive(),
        reg.grant_n(n).available.len() == reg.available.len() - n,
        reg.grant_n(n).live.len() == reg.live.len() + n,
        n == reg.available.len() ==> reg.grant_n(n).available.len() == 0,
    decreases n,
{
    if n > 0 {
        let prev = reg.grant_n((n - 1) as nat);
        lemma_pool_exhausts(reg, (n - 1) as nat);
        lemma_take_top(prev);
        let top = prev.available.last();
        lemma_ports_stay_exclusive(
            prev.take_port(),
            Seq::new(prev.live.len(), |k: int| false),
            top,
        );
        assert(prev.grant() == (RegistryView {
            available: prev.take_port().available,
            live: prev.take_port().live.push(top),
        }));
    }
}

/// The port of a session that has ended goes back to the pool, free to be handed out again,
/// and no session holds it any more.
pub proof fn lemma_finished_port_returns(reg: RegistryView, finished: Seq<bool>, i: int)
    requires
        reg.exclusive(),
        finished.len() == reg.live.len(),
        0 <= i < reg.live.len(),
        finished[i],
    ensures
        reg.reclaim(finished).available.contains(reg.live[i]),
        !reg.reclaim(finished).live.contains(reg.live[i]),
        reg.reclaim(finished).exclusive(),
{
    lemma_select(reg.live, finished);
    lemma_concat(reg.available, select(reg.live, finished, true));
    assert(reg.live.contains(reg.live[i]));
    lemma_ports_stay_exclusive(reg, finished, 0);
}

/// The ports `first`, `first + 1`, ..., `count` of them.
pub open spec fn port_range(first: u16, count: u16) -> Seq<u16> {
    Seq::new(count as nat, |i: int| (first + i) as u16)
}

/// What the orchestrator answers to a request on its control connection.
#[derive(Clone, Copy, Debug, PartialEq, Eq, Structural)]
pub enum ControlReply {
    /// The request was not one the orchestrator knows: no answer.
    Ignored,
    /// A session may be started on this port; the client is told the number.
    Port(u16),
    /// No port is free; the client is told so, and the control connection ends.
    Unavailable,
}

/// The pool of free ports and the sessions that hold the others.
pub struct SessionRegistry {
    available: Vec<u16>,
    sessions: Vec<GameSession>,
}

impl View for SessionRegistry {
    type V = RegistryView;

    closed spec fn view(&self) -> RegistryView {
        RegistryView {
            available: self.available@,
            live: self.sessions@.map_values(|s: GameSession| s.port),
        }
    }
}

impl SessionRegistry {
    #[verifier::type_invariant]
    spec fn inv(self) -> bool {
        self@.exclusive()
    }

    /// A registry with no sessions whose pool holds the `count` ports from `first` on; the last
    /// of them is handed out first.
    pub fn new(first: u16, count: u16) -> (r: SessionRegistry)
        requires
            first + count <= 65536,
        ensures
            r@.available == port_range(first, count),
            r@.live == Seq::<u16>::empty(),
    {
        let mut available: Vec<u16> = Vec::new();
        let mut i: u16 = 0;
        while i < count
            invariant
                i <= count,
                first + count <= 65536,
                available@ == port_range(first, i),
            decreases count - i,
        {
            available.push(first + i);
            i = i + 1;
            assert(available@ =~= port_range(first, i));
        }
        let sessions: Vec<GameSession> = Vec::new();
        assert(sessions@.map_values(|s: GameSession| s.port) =~= Seq::<u16>::empty());
        SessionRegistry { available, sessions }
    }

    /// Drops the sessions flagged in `finished` (one flag per session, in order) and pushes
    /// their ports back on the pool.
    pub fn reclaim(&mut self, finished: &Vec<bool>)
        requires
            finished@.len() == old(self)@.live.len(),
        ensures
            final(self)@ == old(self)@.reclaim(finished@),
    {
        proof {
            use_type_invariant(&*self);
        }
        let ghost start = self@;
        let ghost all = start.live;
        let mut pending: Vec<GameSession> = Vec::new();
        std::mem::swap(&mut pending, &mut self.sessions);
        let mut available: Vec<u16> = Vec::new();
        std::mem::swap(&mut available, &mut self.available);
        let mut kept: Vec<GameSession> = Vec::new();
        let n = pending.len();
        let mut i: usize = 0;
        while i < n
            invariant
                n == all.len(),
                finished@.len() == n,
                i <= n,
                pending@.len() == n - i,
                pending@.map_values(|s: GameSession| s.port) == all.subrange(i as int, n as int),
                kept@.map_values(|s: GameSession| s.port) == select(
                    all.take(i as int),
                    finished@,
                    false,
                ),
                available@ == start.available + select(all.take(i as int), finished@, true),
            decreases n - i,
        {
            let ghost before = pending@;
            let session = pending.remove(0);
            proof {
                assert(before.map_values(|s: GameSession| s.port)[0] == session.port);
                assert forall|k: int| 0 <= k < pending@.len() implies #[trigger] pending@[k].port
                    == all[i + 1 + k] by {
                    assert(pending@[k] == before[k + 1]);
                    assert(before.map_values(|s: GameSession| s.port)[k + 1] == all[i + 1 + k]);
                }
                assert(pending@.map_values(|s: GameSession| s.port) =~= all.subrange(
                    i + 1,
                    n as int,
                ));
                assert(all.take(i + 1).drop_last() =~= all.take(i as int));
                assert(all.take(i + 1).last() == all[i as int]);
                assert(all[i as int] == session.port);
            }
            if finished[i] {
                available.push(session.port);
                proof {
                    assert(available@ =~= start.available + select(
                        all.take(i + 1),
                        finished@,
                        true,
                    ));
                }
            } else {
                kept.push(session);
                proof {
                    assert(kept@.map_values(|s: GameSession| s.port) =~= select(
                        all.take(i + 1),
                        finished@,
                        false,
                    ).drop_last().push(session.port));
                }
            }
            i = i + 1;
        }
        proof {
            assert(all.take(n as int) =~= all);
            lemma_ports_stay_exclusive(start, finished@, 0);
        }
        *self = SessionRegistry { available, sessions: kept };
    }

    /// Asks each session whether it has ended, then reclaims the ports of those that have.
    pub fn reclaim_finished(&mut self)
        ensures
            exists|finished: Seq<bool>|
                finished.len() == old(self)@.live.len() && final(self)@ == old(self)@.reclaim(
                    finished,
                ),
    {
        let n = self.sessions.len();
        let mut finished: Vec<bool> = Vec::new();
        let mut i: usize = 0;
        while i < n
            invariant
                n == self.sessions@.len(),
                i <= n,
                finished@.len() == i,
            decreases n - i,
        {
            finished.push(self.sessions[i].handle.is_finished());
            i = i + 1;
        }
        self.reclaim(&finished);
    }

    /// Takes the port on top of the pool, if there is one.
    pub fn take_port(&mut self) -> (r: Option<u16>)
        ensures
            final(self)@ == old(self)@.take_port(),
            old(self)@.available.len() == 0 ==> r is None,
            old(self)@.available.len() > 0 ==> r == Some(old(self)@.available.last()),
            r matches Some(p) ==> !final(self)@.holds(p),
    {
        proof {
            use_type_invariant(&*self);
        }
        let ghost start = self@;
        let mut available: Vec<u16> = Vec::new();
        std::mem::swap(&mut available, &mut self.available);
        let r = available.pop();
        proof {
            if start.available.len() > 0 {
                lemma_take_top(start);
            }
        }
        self.available = available;
        r
    }

    /// Whether `port` is held, by the pool or by a session.
    pub fn holds(&self, port: u16) -> (r: bool)
        ensures
            r == self@.holds(port),
    {
        let n = self.available.len();
        let mut i: usize = 0;
        while i < n
            invariant
                n == self.available@.len(),
                i <= n,
                forall|k: int| 0 <= k < i ==> self.available@[k] != port,
            decreases n - i,
        {
            if self.available[i] == port {
                assert(self.available@[i as int] == port);
                return true;
            }
            i = i + 1;
        }
        let m = self.sessions.len();
        let mut j: usize = 0;
        while j < m
            invariant
                m == self.sessions@.len(),
                j <= m,
                forall|k: int| 0 <= k < j ==> self.sessions@[k].port != port,
            decreases m - j,
        {
            if self.sessions[j].port == port {
                assert(self@.live[j as int] == port);
                return true;
            }
            j = j + 1;
        }
        proof {
            if self@.live.contains(port) {
                let k = choose|k: int| 0 <= k < self@.live.len() && self@.live[k] == port;
                assert(self.sessions@[k].port == port);
            }
        }
        false
    }

    /// Tracks `session`, unless its port is already held; returns whether it was added.
    pub fn register(&mut self, session: GameSession) -> (added: bool)
        ensures
            added == !old(self)@.holds(session.port),
            added ==> final(self)@ == (RegistryView {
                available: old(self)@.available,
                live: old(self)@.live.push(session.port),
            }),
            !added ==> final(self)@ == old(self)@,
    {
        proof {
            use_type_invariant(&*self);
        }
        if self.holds(session.port) {
            return false;
        }
        let ghost start = self@;
        let port = session.port;
        let mut sessions: Vec<GameSession> = Vec::new();
        std::mem::swap(&mut sessions, &mut self.sessions);
        sessions.push(session);
        proof {
            assert(sessions@.map_values(|s: GameSession| s.port) =~= start.live.push(port));
            lemma_push(start.live, port);
        }
        self.sessions = sessions;
        true
    }

    /// Answers a request on a control connection. Finished sessions are reclaimed first,
    /// whatever the request; a request for a new game then takes a port from the pool.
    pub fn handle_request(&mut self, request: &str) -> (reply: ControlReply)
        ensures
            exists|finished: Seq<bool>|
                {
                    let r = #[trigger] old(self)@.reclaim(finished);
                    &&& finished.len() == old(self)@.live.len()
                    &&& request@ == CREATE_GAME_REQUEST@ ==> {
                        &&& final(self)@ == r.take_port()
                        &&& r.available.len() == 0 ==> reply == ControlReply::Unavailable
                        &&& r.available.len() > 0 ==> reply == ControlReply::Port(
                            r.available.last(),
                        )
                    }
                    &&& request@ != CREATE_GAME_REQUEST@ ==> final(self)@ == r && reply
                        == ControlReply::Ignored
                },
    {
        self.reclaim_finished();
        let token = CREATE_GAME_REQUEST.to_owned();
        let text = request.to_owned();
        if text == token {
            match self.take_port() {
                Some(port) => ControlReply::Port(port),
                None => ControlReply::Unavailable,
            }
        } else {
            ControlReply::Ignored
        }
    }

    /// The free ports, from the bottom of the stack to its top.
    pub fn available_ports(&self) -> (r: &Vec<u16>)
        ensures
            r@ == self@.available,
    {
        &self.available
    }

    /// The ports of the tracked sessions, in the order they were registered.
    pub fn live_ports(&self) -> (r: Vec<u16>)
        ensures
            r@ == self@.live,
    {
        let n = self.sessions.len();
        let mut r: Vec<u16> = Vec::new();
        let mut i: usize = 0;
        while i < n
            invariant
                n == self.sessions@.len(),
                i <= n,
                r@ == self@.live.take(i as int),
            decreases n - i,
        {
            r.push(self.sessions[i].port);
            i = i + 1;
            assert(r@ =~= self@.live.take(i as int));
        }
        assert(self@.live.take(n as int) =~= self@.live);
        r
    }
}

} // verus!
