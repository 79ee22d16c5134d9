//! Who may start a run: the runs in flight, at most one for each player,
//! and the indexer that a player belongs to.

use crate::model::status::PersonalStatus;
use crate::model::user::UserId;
use vstd::prelude::*;

verus! {

/// How the indexer is set up.
#[derive(Debug, Clone)]
pub struct IndexerOpt {
    lila: String,
    bearer: Option<String>,
    indexers: usize,
}

impl IndexerOpt {
    /// The options as given.
    pub fn new(lila: String, bearer: Option<String>, indexers: usize) -> (opt: IndexerOpt)
        ensures
            opt.spec_lila() == lila@,
            opt.spec_indexers() == indexers,
            opt.spec_bearer() == bearer,
    {
        IndexerOpt { lila, bearer, indexers }
    }

    /// The address of the server.
    pub closed spec fn spec_lila(&self) -> Seq<char> {
        self.lila@
    }

    /// The token to present to the server.
    pub closed spec fn spec_bearer(&self) -> Option<String> {
        self.bearer
    }

    /// The number of indexers.
    pub closed spec fn spec_indexers(&self) -> usize {
        self.indexers
    }

    /// The address of the server.
    pub fn lila(&self) -> (lila: &str)
        ensures
            lila@ == self.spec_lila(),
    {
        self.lila.as_str()
    }

    /// The token to present to the server, if there is one.
    pub fn bearer(&self) -> (bearer: &Option<String>)
        ensures
            *bearer == self.spec_bearer(),
    {
        &self.bearer
    }

    /// The number of indexers.
    pub fn indexers(&self) -> (indexers: usize)
        ensures
            indexers == self.spec_indexers(),
    {
        self.indexers
    }
}

impl Default for IndexerOpt {
    /// The public server, no token, and 16 indexers.
    fn default() -> (opt: IndexerOpt)
        ensures
            opt.spec_lila() == "https://lichess.org"@,
            opt.spec_bearer() is None,
            opt.spec_indexers() == 16,
    {
        IndexerOpt { lila: "https://lichess.org".to_owned(), bearer: None, indexers: 16 }
    }
}

/// How many jobs wait for one indexer at most.
pub const QUEUE_CAPACITY: usize = 500;

/// The indexer that is responsible for the player whose name hashes to
/// `hash`, of `indexers` indexers.
pub fn responsible_indexer(hash: u64, indexers: usize) -> (indexer: usize)
    requires
        indexers > 0,
    ensures
        indexer == hash % (indexers as u64),
        indexer < indexers,
{
    (hash % (indexers as u64)) as usize
}

/// A run to queue: for which indexer, and from which game on.
#[derive(Debug, Copy, Clone, PartialEq, Eq, Structural)]
pub struct IndexJob {
    pub indexer: usize,
    pub since_created_at: u64,
}

/// Whether a run is due for a player with `status` at `now`, and which.
/// `None` where it is too soon. A remembered ongoing game is forgotten: the
/// run starts from it.
pub fn plan_index_player(
    status: &mut PersonalStatus,
    now: u64,
    refresh_after: u64,
    hash: u64,
    indexers: usize,
) -> (job: Option<IndexJob>)
    requires
        indexers > 0,
    ensures
        job == match old(status).spec_since_created_at(now, refresh_after) {
            Some(since_created_at) => Some(
                IndexJob { indexer: (hash % (indexers as u64)) as usize, since_created_at },
            ),
            None => None,
        },
        *final(status) == (PersonalStatus { revisit_ongoing_created_at: None, ..*old(status) }),
{
    match status.since_created_at(now, refresh_after) {
        Some(since_created_at) => Some(
            IndexJob { indexer: responsible_indexer(hash, indexers), since_created_at },
        ),
        None => None,
    }
}

/// What became of the attempt to queue a job.
#[derive(Debug, Copy, Clone, PartialEq, Eq, Structural)]
pub enum Enqueued {
    Sent,
    Full,
    Closed,
}

/// What became of a request to index a player.
#[derive(Debug, Copy, Clone, PartialEq, Eq, Structural)]
pub enum Registration {
    /// The run is queued and in flight.
    Started,
    /// The queue of the indexer is full: nothing is in flight, the caller
    /// may ask again later.
    QueueFull,
}

/// The runs in flight: for each player with a run, the name and what the
/// waiters of the run hold on to, in the order in which the runs started.
/// No player stands twice.
pub struct Indexing<T> {
    runs: Vec<(UserId, T)>,
}

impl<T> Indexing<T> {
    /// The players with a run in flight and what is held for each.
    pub closed spec fn runs(&self) -> Seq<(Seq<char>, T)> {
        Seq::new(self.runs@.len(), |i: int| (self.runs@[i].0@, self.runs@[i].1))
    }

    /// Whether at most one run is in flight for each player.
    pub open spec fn wf(&self) -> bool {
        forall|i: int, j: int|
            0 <= i < j < self.runs().len() ==> (#[trigger] self.runs()[i]).0 != (
            #[trigger] self.runs()[j]).0
    }

    /// Whether a run is in flight for `user`.
    pub open spec fn is_indexing(&self, user: Seq<char>) -> bool {
        exists|i: int| 0 <= i < self.runs().len() && (#[trigger] self.runs()[i]).0 == user
    }

    /// How many runs are in flight for `user`, among the first `upto`.
    pub open spec fn count_upto(&self, user: Seq<char>, upto: int) -> nat
        decreases upto,
    {
        if upto <= 0 {
            0
        } else {
            self.count_upto(user, upto - 1) + if upto <= self.runs().len() && self.runs()[upto
                - 1].0 == user {
                1nat
            } else {
                0nat
            }
        }
    }

    /// How many runs are in flight for `user`.
    pub open spec fn count(&self, user: Seq<char>) -> nat {
        self.count_upto(user, self.runs().len() as int)
    }

    proof fn lemma_count_upto(&self, user: Seq<char>, upto: int)
        requires
            self.wf(),
            0 <= upto <= self.runs().len(),
        ensures
            self.count_upto(user, upto) <= 1,
            self.count_upto(user, upto) == 1 <==> exists|i: int|
                0 <= i < upto && (#[trigger] self.runs()[i]).0 == user,
        decreases upto,
    {
        if upto > 0 {
            self.lemma_count_upto(user, upto - 1);
            if self.runs()[upto - 1].0 == user {
                if self.count_upto(user, upto - 1) == 1 {
                    let i = choose|i: int| 0 <= i < upto - 1 && (#[trigger] self.runs()[i]).0 == user;
                    assert(self.runs()[i].0 != self.runs()[upto - 1].0);
                }
            } else if self.count_upto(user, upto) == 1 {
                let i = choose|i: int| 0 <= i < upto - 1 && (#[trigger] self.runs()[i]).0 == user;
                assert(0 <= i < upto && self.runs()[i].0 == user);
            }
        }
    }

    /// At most one run is in flight for any player, at all times.
    pub proof fn lemma_single_flight(&self, user: Seq<char>)
        requires
            self.wf(),
        ensures
            self.count(user) <= 1,
            self.count(user) == 1 <==> self.is_indexing(user),
    {
        self.lemma_count_upto(user, self.runs().len() as int);
    }

    /// No runs.
    pub fn new() -> (indexing: Indexing<T>)
        ensures
            indexing.wf(),
            indexing.runs().len() == 0,
    {
        Indexing { runs: Vec::new() }
    }

    /// How many runs are in flight.
    pub fn len(&self) -> (len: usize)
        ensures
            len == self.runs().len(),
    {
        self.runs.len()
    }

    fn position(&self, user: &UserId) -> (pos: Option<usize>)
        ensures
            match pos {
                Some(pos) => pos < self.runs().len() && self.runs()[pos as int].0 == user@,
                None => !self.is_indexing(user@),
            },
    {
        let mut i: usize = 0;
        while i < self.runs.len()
            invariant
                i <= self.runs@.len(),
                forall|k: int| 0 <= k < i ==> (#[trigger] self.runs()[k]).0 != user@,
            decreases self.runs@.len() - i,
        {
            if self.runs[i].0.same(user) {
                return Some(i);
            }
            i = i + 1;
        }
        None
    }

    /// What is held for the run of `user`, if one is in flight: a late
    /// caller waits on it with the others.
    pub fn get(&self, user: &UserId) -> (held: Option<&T>)
        ensures
            match held {
                Some(held) => exists|i: int|
                    0 <= i < self.runs().len() && #[trigger] self.runs()[i] == (user@, *held),
                None => !self.is_indexing(user@),
            },
    {
        match self.position(user) {
            Some(pos) => {
                assert(self.runs()[pos as int] == (user@, self.runs@[pos as int].1));
                Some(&self.runs[pos].1)
            },
            None => None,
        }
    }

    /// Settles a request for `user`, for whom no run is in flight, after the
    /// attempt to queue the job: the run is in flight, with `held`, exactly
    /// where the job was sent. A queue that is closed means that its indexer
    /// is gone; the process must stop then, and nothing is settled.
    pub fn register(&mut self, user: UserId, held: T, enqueued: Enqueued) -> (r: Registration)
        requires
            old(self).wf(),
            !old(self).is_indexing(user@),
            enqueued != Enqueued::Closed,
        ensures
            final(self).wf(),
            r == match enqueued {
                Enqueued::Sent => Registration::Started,
                _ => Registration::QueueFull,
            },
            final(self).runs() == if enqueued == Enqueued::Sent {
                old(self).runs().push((user@, held))
            } else {
                old(self).runs()
            },
    {
        match enqueued {
            Enqueued::Sent => {
                let ghost before = self.runs();
                let ghost name = user@;
                self.runs.push((user, held));
                proof {
                    assert(self.runs() =~= before.push((name, held)));
                    assert forall|i: int, j: int| 0 <= i < j < self.runs().len() implies (
                    #[trigger] self.runs()[i]).0 != (#[trigger] self.runs()[j]).0 by {
                        if j < before.len() {
                            assert(before[i].0 != before[j].0);
                        } else {
                            assert(before[i].0 != name);
                        }
                    }
                }
                Registration::Started
            },
            _ => Registration::QueueFull,
        }
    }

    /// Ends the run of `user` and hands back what was held for it, to wake
    /// those who wait; `None` where no run was in flight.
    pub fn finish(&mut self, user: &UserId) -> (held: Option<T>)
        requires
            old(self).wf(),
        ensures
            final(self).wf(),
            !final(self).is_indexing(user@),
            held is Some <==> old(self).is_indexing(user@),
            match held {
                Some(held) => exists|pos: int|
                    0 <= pos < old(self).runs().len() && #[trigger] old(self).runs()[pos] == (
                        user@,
                        held,
                    ) && final(self).runs() == old(self).runs().remove(pos),
                None => final(self).runs() == old(self).runs(),
            },
            forall|other: Seq<char>|
                other != user@ ==> (final(self).is_indexing(other) <==> old(self).is_indexing(other)),
            final(self).runs().len() == old(self).runs().len() - if held is Some {
                1int
            } else {
                0int
            },
    {
        match self.position(user) {
            None => None,
            Some(pos) => {
                let ghost before = self.runs();
                let run = self.runs.remove(pos);
                proof {
                    assert(self.runs() =~= before.remove(pos as int));
                    assert(before[pos as int] == (user@, run.1));
                    assert forall|i: int, j: int| 0 <= i < j < self.runs().len() implies (
                    #[trigger] self.runs()[i]).0 != (#[trigger] self.runs()[j]).0 by {
                        let i0 = if i < pos {
                            i
                        } else {
                            i + 1
                        };
                        let j0 = if j < pos {
                            j
                        } else {
                            j + 1
                        };
                        assert(before[i0].0 != before[j0].0);
                    }
                    assert forall|k: int| 0 <= k < self.runs().len() implies (
                    #[trigger] self.runs()[k]).0 != user@ by {
                        let k0 = if k < pos {
                            k
                        } else {
                            k + 1
                        };
                        if k0 < pos {
                            assert(before[k0].0 != before[pos as int].0);
                        } else {
                            assert(before[pos as int].0 != before[k0].0);
                        }
                    }
                    assert forall|other: Seq<char>| other != user@ implies (self.is_indexing(other)
                        <==> old(self).is_indexing(other)) by {
                        if self.is_indexing(other) {
                            let k = choose|k: int|
                                0 <= k < self.runs().len() && (#[trigger] self.runs()[k]).0 == other;
                            let k0 = if k < pos {
                                k
                            } else {
                                k + 1
                            };
                            assert(before[k0].0 == other);
                        }
                        if old(self).is_indexing(other) {
                            let k0 = choose|k: int|
                                0 <= k < before.len() && (#[trigger] before[k]).0 == other;
                            let k = if k0 < pos {
                                k0
                            } else {
                                k0 - 1
                            };
                            assert(self.runs()[k].0 == other);
                        }
                    }
                }
                Some(run.1)
            },
        }
    }
}

} // verus!
