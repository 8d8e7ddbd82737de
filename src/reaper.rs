//! The idle reaper: decides when a session without players has been idle long enough to end.
use vstd::prelude::*;

verus! {

/// The reaper as the contracts see it: since when the session has had no players, if it has
/// none now, and how long it may stay so.
pub struct ReaperView {
    pub idle_since: Option<u64>,
    pub threshold: u64,
}

impl ReaperView {
    /// The reaper after a check at time `now` that found `player_count` players.
    pub open spec fn tick(self, player_count: nat, now: u64) -> ReaperView {
        if player_count > 0 {
            ReaperView { idle_since: None, threshold: self.threshold }
        } else {
            ReaperView {
                idle_since: Some(
                    match self.idle_since {
                        Some(t) => t,
                        None => now,
                    },
                ),
                threshold: self.threshold,
            }
        }
    }

    /// Whether, at time `now`, the session has had no players for at least the threshold.
    pub open spec fn expired(self, now: u64) -> bool {
        match self.idle_since {
            Some(t) => t <= now && now - t >= self.threshold,
            None => false,
        }
    }

    /// The reaper after checks at each of `times` that all found no players.
    pub open spec fn idle_run(self, times: Seq<u64>) -> ReaperView
        decreases times.len(),
    {
        if times.len() == 0 {
            self
        } else {
            self.idle_run(times.drop_last()).tick(0, times.last())
        }
    }
}

/// Tracks how long a session has had no players. Times are in any unit of a monotonic clock.
pub struct IdleReaper {
    idle_since: Option<u64>,
    threshold: u64,
}

impl View for IdleReaper {
    type V = ReaperView;

    closed spec fn view(&self) -> ReaperView {
        ReaperView { idle_since: self.idle_since, threshold: self.threshold }
    }
}

impl IdleReaper {
    /// A reaper for a session that may stay without players for `threshold`.
    pub fn new(threshold: u64) -> (r: IdleReaper)
        ensures
            r@ == (ReaperView { idle_since: None, threshold }),
    {
        IdleReaper { idle_since: None, threshold }
    }

    /// Records a check at time `now` that found `player_count` players, and returns whether
    /// the session should end: it has had none for at least the threshold.
    pub fn tick(&mut self, player_count: usize, now: u64) -> (terminate: bool)
        ensures
            final(self)@ == old(self)@.tick(player_count as nat, now),
            terminate == final(self)@.expired(now),
    {
        if player_count > 0 {
            self.idle_since = None;
            false
        } else {
            let since = match self.idle_since {
                Some(t) => t,
                None => now,
            };
            self.idle_since = Some(since);
            since <= now && now - since >= self.threshold
        }
    }

    /// Since when the session has had no players, if it has none.
    pub fn idle_since(&self) -> (r: Option<u64>)
        ensures
            r == self@.idle_since,
    {
        self.idle_since
    }
}

/// Once checks keep finding no players over a span of at least the threshold, the reaper ends
/// the session at the last of them.
pub proof fn lemma_idle_session_expires(r: ReaperView, times: Seq<u64>)
    requires
        times.len() > 0,
        forall|i: int, j: int| 0 <= i <= j < times.len() ==> times[i] <= times[j],
        r.idle_since matches Some(t) ==> t <= times[0],
        times.last() - times[0] >= r.threshold,
    ensures
        r.idle_run(times).expired(times.last()),
{
    lemma_idle_since_bound(r, times);
}

proof fn lemma_idle_since_bound(r: ReaperView, times: Seq<u64>)
    requires
        times.len() > 0,
        forall|i: int, j: int| 0 <= i <= j < times.len() ==> times[i] <= times[j],
        r.idle_since matches Some(t) ==> t <= times[0],
    ensures
        r.idle_run(times).idle_since matches Some(t) && t <= times[0],
        r.idle_run(times).threshold == r.threshold,
    decreases times.len(),
{
    let init = times.drop_last();
    if times.len() > 1 {
        assert(init[0] == times[0]);
        lemma_idle_since_bound(r, init);
    } else {
        assert(r.idle_run(init) == r);
    }
}

} // verus!
