//! What is remembered of a player between two runs of indexing.

use vstd::prelude::*;

verus! {

/// The state of indexing of one player. Times of games are milliseconds
/// since the Unix epoch, as the server gives them; `indexed_at` is in
/// seconds.
#[derive(Debug, Copy, Clone, PartialEq, Eq, Structural)]
pub struct PersonalStatus {
    /// The latest `created_at` of the games seen.
    pub latest_created_at: u64,
    /// The `created_at` of the first game that was still going on in the
    /// last run, to read on from there once it has ended.
    pub revisit_ongoing_created_at: Option<u64>,
    /// When the last run ended; `None` before the first.
    pub indexed_at: Option<u64>,
}

impl PersonalStatus {
    /// The status of a player who was never indexed.
    pub open spec fn spec_default() -> PersonalStatus {
        PersonalStatus { latest_created_at: 0, revisit_ongoing_created_at: None, indexed_at: None }
    }

    /// From which `created_at` on to read games at `now`, if the last run
    /// lies `refresh_after` seconds back or more: from 0 for a player never
    /// indexed, else from just after the latest game seen.
    pub open spec fn spec_maybe_index(self, now: u64, refresh_after: u64) -> Option<u64> {
        match self.indexed_at {
            None => Some(0),
            Some(indexed_at) => if now >= indexed_at && now - indexed_at >= refresh_after {
                Some(
                    if self.latest_created_at < u64::MAX {
                        (self.latest_created_at + 1) as u64
                    } else {
                        u64::MAX
                    },
                )
            } else {
                None
            },
        }
    }

    /// From which `created_at` on the next run reads: from the game that was
    /// going on, where one is remembered, else as
    /// [`PersonalStatus::spec_maybe_index`] says.
    pub open spec fn spec_since_created_at(self, now: u64, refresh_after: u64) -> Option<u64> {
        match self.revisit_ongoing_created_at {
            Some(since) => Some(since),
            None => self.spec_maybe_index(now, refresh_after),
        }
    }

    /// Whether a remembered ongoing game is not later than the latest game.
    pub open spec fn wf(self) -> bool {
        self.revisit_ongoing_created_at matches Some(revisit) ==> revisit <= self.latest_created_at
    }

    /// From which `created_at` on to read games, see
    /// [`PersonalStatus::spec_maybe_index`].
    pub fn maybe_index(&self, now: u64, refresh_after: u64) -> (since: Option<u64>)
        ensures
            since == self.spec_maybe_index(now, refresh_after),
    {
        match self.indexed_at {
            None => Some(0),
            Some(indexed_at) => if now >= indexed_at && now - indexed_at >= refresh_after {
                Some(self.latest_created_at.saturating_add(1))
            } else {
                None
            },
        }
    }

    /// The `created_at` of the ongoing game that is remembered, which is
    /// forgotten with this call: the run that follows remembers the first
    /// game that is still going on.
    pub fn maybe_revisit_ongoing(&mut self) -> (since: Option<u64>)
        ensures
            since == old(self).revisit_ongoing_created_at,
            *final(self) == (PersonalStatus { revisit_ongoing_created_at: None, ..*old(self) }),
            final(self).wf(),
    {
        let since = self.revisit_ongoing_created_at;
        self.revisit_ongoing_created_at = None;
        since
    }

    /// From which `created_at` on the next run reads, or `None` where it is
    /// too soon for one. A remembered ongoing game is forgotten.
    pub fn since_created_at(&mut self, now: u64, refresh_after: u64) -> (since: Option<u64>)
        ensures
            since == old(self).spec_since_created_at(now, refresh_after),
            *final(self) == (PersonalStatus { revisit_ongoing_created_at: None, ..*old(self) }),
    {
        match self.maybe_revisit_ongoing() {
            Some(since) => Some(since),
            None => self.maybe_index(now, refresh_after),
        }
    }

    /// Takes note of a game that was created at `created_at` and is still
    /// going on, or not: the latest game seen never moves back, and the first
    /// ongoing game is remembered.
    pub fn observe(&mut self, created_at: u64, ongoing: bool)
        ensures
            final(self).latest_created_at == if created_at > old(self).latest_created_at {
                created_at
            } else {
                old(self).latest_created_at
            },
            final(self).latest_created_at >= old(self).latest_created_at,
            final(self).revisit_ongoing_created_at == if ongoing
                && old(self).revisit_ongoing_created_at is None {
                Some(created_at)
            } else {
                old(self).revisit_ongoing_created_at
            },
            final(self).indexed_at == old(self).indexed_at,
            old(self).wf() ==> final(self).wf(),
    {
        if created_at > self.latest_created_at {
            self.latest_created_at = created_at;
        }
        if ongoing && self.revisit_ongoing_created_at.is_none() {
            self.revisit_ongoing_created_at = Some(created_at);
        }
    }

    /// Marks the end of a run at `now`.
    pub fn finish_run(&mut self, now: u64)
        ensures
            *final(self) == (PersonalStatus { indexed_at: Some(now), ..*old(self) }),
    {
        self.indexed_at = Some(now);
    }
}

impl Default for PersonalStatus {
    fn default() -> (status: PersonalStatus)
        ensures
            status == PersonalStatus::spec_default(),
            status.wf(),
    {
        PersonalStatus { latest_created_at: 0, revisit_ongoing_created_at: None, indexed_at: None }
    }
}

} // verus!
