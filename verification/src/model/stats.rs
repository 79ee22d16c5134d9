//! Results counted by the winning side, with the sum of the movers' ratings.

use crate::model::color::{Color, Outcome};
use crate::model::reader::{read_result, ByteReader, CodecError};
use crate::model::uint::{
    lemma_read_uint_len, lemma_read_uint_prefix, lemma_read_write_uint, read_uint, spec_read_uint, spec_write_uint, write_uint,
};
use vstd::prelude::*;

verus! {

/// How often white won, the game was drawn and black won, and the sum of
/// the ratings of those who made the move.
#[derive(Debug, Copy, Clone, PartialEq, Eq, Structural)]
pub struct Stats {
    pub white: u64,
    pub draws: u64,
    pub black: u64,
    pub rating_sum: u64,
}

/// The bytes that write `stats`: the three counts, then the rating sum.
pub open spec fn spec_write_stats(stats: Stats) -> Seq<u8> {
    spec_write_uint(stats.white as nat) + spec_write_uint(stats.draws as nat) + spec_write_uint(
        stats.black as nat,
    ) + spec_write_uint(stats.rating_sum as nat)
}

/// What reading statistics off `s` gives.
pub open spec fn spec_read_stats(s: Seq<u8>) -> Result<(Stats, nat), CodecError> {
    match spec_read_uint(s) {
        Err(e) => Err(e),
        Ok((white, n1)) => match spec_read_uint(s.skip(n1 as int)) {
            Err(e) => Err(e),
            Ok((draws, n2)) => match spec_read_uint(s.skip((n1 + n2) as int)) {
                Err(e) => Err(e),
                Ok((black, n3)) => match spec_read_uint(s.skip((n1 + n2 + n3) as int)) {
                    Err(e) => Err(e),
                    Ok((rating_sum, n4)) => Ok(
                        (Stats { white, draws, black, rating_sum }, n1 + n2 + n3 + n4),
                    ),
                },
            },
        },
    }
}

impl Stats {
    /// No games.
    pub open spec fn spec_zero() -> Stats {
        Stats { white: 0, draws: 0, black: 0, rating_sum: 0 }
    }

    /// The statistics of one game.
    pub open spec fn spec_new_single(outcome: Outcome, mover_rating: u16) -> Stats {
        Stats {
            white: if outcome == (Outcome::Decisive { winner: Color::White }) {
                1
            } else {
                0
            },
            draws: if outcome == Outcome::Draw {
                1
            } else {
                0
            },
            black: if outcome == (Outcome::Decisive { winner: Color::Black }) {
                1
            } else {
                0
            },
            rating_sum: mover_rating as u64,
        }
    }

    /// Whether no game is counted.
    pub open spec fn spec_is_empty(self) -> bool {
        self.white == 0 && self.draws == 0 && self.black == 0
    }

    /// Whether the sums of `self` and `rhs` fit their fields.
    pub open spec fn can_add(self, rhs: Stats) -> bool {
        &&& self.white + rhs.white <= u64::MAX
        &&& self.draws + rhs.draws <= u64::MAX
        &&& self.black + rhs.black <= u64::MAX
        &&& self.rating_sum + rhs.rating_sum <= u64::MAX
    }

    /// The sum of `self` and `rhs`, field by field.
    pub open spec fn spec_add(self, rhs: Stats) -> Stats {
        Stats {
            white: (self.white + rhs.white) as u64,
            draws: (self.draws + rhs.draws) as u64,
            black: (self.black + rhs.black) as u64,
            rating_sum: (self.rating_sum + rhs.rating_sum) as u64,
        }
    }

    /// No games.
    pub fn zero() -> (stats: Stats)
        ensures
            stats == Stats::spec_zero(),
    {
        Stats { white: 0, draws: 0, black: 0, rating_sum: 0 }
    }

    /// The statistics of one game that ended with `outcome`, the side that
    /// made the move being rated `mover_rating`.
    pub fn new_single(outcome: Outcome, mover_rating: u16) -> (stats: Stats)
        ensures
            stats == Stats::spec_new_single(outcome, mover_rating),
    {
        let rating_sum: u64 = mover_rating as u64;
        match outcome {
            Outcome::Decisive { winner: Color::White } => Stats {
                white: 1,
                draws: 0,
                black: 0,
                rating_sum,
            },
            Outcome::Decisive { winner: Color::Black } => Stats {
                white: 0,
                draws: 0,
                black: 1,
                rating_sum,
            },
            Outcome::Draw => Stats { white: 0, draws: 1, black: 0, rating_sum },
        }
    }

    /// Whether no game is counted.
    pub fn is_empty(&self) -> (empty: bool)
        ensures
            empty == self.spec_is_empty(),
    {
        self.white == 0 && self.draws == 0 && self.black == 0
    }

    /// The number of games counted, if it fits.
    pub fn total(&self) -> (total: Option<u64>)
        ensures
            match total {
                Some(t) => t == self.white + self.draws + self.black,
                None => self.white + self.draws + self.black > u64::MAX,
            },
    {
        match self.white.checked_add(self.draws) {
            Some(sum) => sum.checked_add(self.black),
            None => None,
        }
    }

    /// The sum of `self` and `rhs`, or `None` where a sum does not fit.
    pub fn checked_add(&self, rhs: &Stats) -> (sum: Option<Stats>)
        ensures
            sum == if self.can_add(*rhs) {
                Some(self.spec_add(*rhs))
            } else {
                None
            },
    {
        let white: u64 = match self.white.checked_add(rhs.white) {
            Some(v) => v,
            None => { return None; },
        };
        let draws: u64 = match self.draws.checked_add(rhs.draws) {
            Some(v) => v,
            None => { return None; },
        };
        let black: u64 = match self.black.checked_add(rhs.black) {
            Some(v) => v,
            None => { return None; },
        };
        let rating_sum: u64 = match self.rating_sum.checked_add(rhs.rating_sum) {
            Some(v) => v,
            None => { return None; },
        };
        Some(Stats { white, draws, black, rating_sum })
    }

    /// Adds `rhs` to `self`, field by field.
    pub fn add_assign(&mut self, rhs: &Stats)
        requires
            old(self).can_add(*rhs),
        ensures
            *final(self) == old(self).spec_add(*rhs),
    {
        self.white = self.white + rhs.white;
        self.draws = self.draws + rhs.draws;
        self.black = self.black + rhs.black;
        self.rating_sum = self.rating_sum + rhs.rating_sum;
    }

    /// Reads statistics.
    pub fn read(reader: &mut ByteReader) -> (r: Result<Stats, CodecError>)
        ensures
            read_result(spec_read_stats(old(reader)@), r, old(reader)@, final(reader)@),
    {
        let ghost s = reader@;
        let white: u64 = match read_uint(reader) {
            Ok(v) => v,
            Err(e) => { return Err(e); },
        };
        let ghost n1 = spec_read_uint(s)->Ok_0.1;
        let draws: u64 = match read_uint(reader) {
            Ok(v) => v,
            Err(e) => { return Err(e); },
        };
        let ghost n2 = spec_read_uint(s.skip(n1 as int))->Ok_0.1;
        assert(reader@ == s.skip((n1 + n2) as int));
        let black: u64 = match read_uint(reader) {
            Ok(v) => v,
            Err(e) => { return Err(e); },
        };
        let ghost n3 = spec_read_uint(s.skip((n1 + n2) as int))->Ok_0.1;
        assert(reader@ == s.skip((n1 + n2 + n3) as int));
        let rating_sum: u64 = match read_uint(reader) {
            Ok(v) => v,
            Err(e) => { return Err(e); },
        };
        let ghost n4 = spec_read_uint(s.skip((n1 + n2 + n3) as int))->Ok_0.1;
        assert(reader@ == s.skip((n1 + n2 + n3 + n4) as int));
        Ok(Stats { white, draws, black, rating_sum })
    }

    /// Appends the encoding of these statistics.
    pub fn write(&self, writer: &mut Vec<u8>)
        ensures
            final(writer)@ == old(writer)@ + spec_write_stats(*self),
    {
        write_uint(writer, self.white);
        write_uint(writer, self.draws);
        write_uint(writer, self.black);
        write_uint(writer, self.rating_sum);
        assert(writer@ == old(writer)@ + spec_write_stats(*self));
    }

    /// Adding is commutative.
    pub proof fn lemma_add_commutative(a: Stats, b: Stats)
        ensures
            a.can_add(b) == b.can_add(a),
            a.spec_add(b) == b.spec_add(a),
    {
    }

    /// Adding is associative, where the sums fit.
    pub proof fn lemma_add_associative(a: Stats, b: Stats, c: Stats)
        requires
            a.can_add(b),
            a.spec_add(b).can_add(c),
        ensures
            b.can_add(c),
            a.can_add(b.spec_add(c)),
            a.spec_add(b).spec_add(c) == a.spec_add(b.spec_add(c)),
    {
    }

    /// Adding no games changes nothing.
    pub proof fn lemma_add_zero(a: Stats)
        ensures
            a.can_add(Stats::spec_zero()),
            a.spec_add(Stats::spec_zero()) == a,
            Stats::spec_zero().spec_add(a) == a,
    {
    }
}

/// Statistics that are written read back as themselves, whatever follows.
pub proof fn lemma_read_write_stats(stats: Stats, rest: Seq<u8>)
    ensures
        spec_read_stats(spec_write_stats(stats) + rest) == Ok::<(Stats, nat), CodecError>(
            (stats, spec_write_stats(stats).len()),
        ),
        (spec_write_stats(stats) + rest).skip(spec_write_stats(stats).len() as int) == rest,
{
    let a = spec_write_uint(stats.white as nat);
    let b = spec_write_uint(stats.draws as nat);
    let c = spec_write_uint(stats.black as nat);
    let d = spec_write_uint(stats.rating_sum as nat);
    let t3 = d + rest;
    let t2 = c + t3;
    let t1 = b + t2;
    let s = spec_write_stats(stats) + rest;
    assert(s == a + t1) by {
        assert(s =~= a + t1);
    }
    lemma_read_write_uint(stats.white, t1);
    lemma_read_write_uint(stats.draws, t2);
    lemma_read_write_uint(stats.black, t3);
    lemma_read_write_uint(stats.rating_sum, rest);
    let n1 = a.len();
    let n2 = b.len();
    let n3 = c.len();
    let n4 = d.len();
    assert(s.skip(n1 as int) == t1);
    assert(s.skip((n1 + n2) as int) == t2) by {
        assert(s.skip((n1 + n2) as int) =~= t1.skip(n2 as int));
    }
    assert(s.skip((n1 + n2 + n3) as int) == t3) by {
        assert(s.skip((n1 + n2 + n3) as int) =~= t2.skip(n3 as int));
    }
    assert(s.skip((n1 + n2 + n3 + n4) as int) == rest) by {
        assert(s.skip((n1 + n2 + n3 + n4) as int) =~= t3.skip(n4 as int));
    }
    assert(spec_write_stats(stats).len() == n1 + n2 + n3 + n4);
}

/// Statistics that were read off `s` are read off `s + t` too, and leave
/// `t` more.
pub proof fn lemma_read_stats_prefix(s: Seq<u8>, t: Seq<u8>)
    ensures
        spec_read_stats(s) matches Ok((v, n)) ==> spec_read_stats(s + t) == spec_read_stats(s) && n
            <= s.len() && (s + t).skip(n as int) == s.skip(n as int) + t,
{
    if let Ok((v, n)) = spec_read_stats(s) {
        let (_, n1) = spec_read_uint(s)->Ok_0;
        let s1 = s.skip(n1 as int);
        let (_, n2) = spec_read_uint(s1)->Ok_0;
        let s2 = s.skip((n1 + n2) as int);
        let (_, n3) = spec_read_uint(s2)->Ok_0;
        let s3 = s.skip((n1 + n2 + n3) as int);
        let (_, n4) = spec_read_uint(s3)->Ok_0;
        lemma_read_uint_len(s);
        lemma_read_uint_len(s1);
        lemma_read_uint_len(s2);
        lemma_read_uint_len(s3);
        lemma_read_uint_prefix(s, t);
        lemma_read_uint_prefix(s1, t);
        lemma_read_uint_prefix(s2, t);
        lemma_read_uint_prefix(s3, t);
        assert((s + t).skip((n1 + n2) as int) == s2 + t);
        assert((s + t).skip((n1 + n2 + n3) as int) == s3 + t);
        assert((s + t).skip(n as int) == s.skip(n as int) + t);
    }
}

} // verus!
