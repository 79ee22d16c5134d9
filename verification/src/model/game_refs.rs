//! The sample of games kept for a group: pairs of an index and a game
//! identifier, held in a `SmallVec` that stores one pair in place.

use crate::model::game_id::GameId;
use smallvec::SmallVec;
use vstd::prelude::*;

verus! {

/// Games by index, in the order in which they were added.
#[verifier::external_body]
#[derive(Debug)]
pub struct GameRefs {
    inner: SmallVec<[(u64, GameId); 1]>,
}

/// The pairs that `refs` holds, in order.
pub uninterp spec fn game_refs(refs: GameRefs) -> Seq<(u64, GameId)>;

/// `SmallVec::new` of smallvec. Trusted: the new vector holds nothing.
#[verifier::external_body]
pub(crate) fn refs_new() -> (refs: GameRefs)
    ensures
        game_refs(refs) == Seq::<(u64, GameId)>::empty(),
{
    GameRefs { inner: SmallVec::new() }
}

/// `SmallVec::len` of smallvec. Trusted: it counts the pairs held.
#[verifier::external_body]
pub(crate) fn refs_len(refs: &GameRefs) -> (len: usize)
    ensures
        len == game_refs(*refs).len(),
{
    refs.inner.len()
}

/// Indexing of a `SmallVec` by position. Trusted: it gives the pair at
/// position `i`. Outside the vector it panics, which `requires` leaves out.
#[verifier::external_body]
pub(crate) fn refs_get(refs: &GameRefs, i: usize) -> (pair: (u64, GameId))
    requires
        i < game_refs(*refs).len(),
    ensures
        pair == game_refs(*refs)[i as int],
{
    refs.inner[i]
}

/// `SmallVec::push` of smallvec. Trusted: it appends the pair and changes
/// nothing else.
#[verifier::external_body]
pub(crate) fn refs_push(refs: &mut GameRefs, idx: u64, id: GameId)
    ensures
        game_refs(*final(refs)) == game_refs(*old(refs)).push((idx, id)),
{
    refs.inner.push((idx, id))
}

/// `Extend::extend` of a `SmallVec` with another. Trusted: it appends the
/// pairs of `more` in their order and changes nothing else.
#[verifier::external_body]
pub(crate) fn refs_extend(refs: &mut GameRefs, more: GameRefs)
    ensures
        game_refs(*final(refs)) == game_refs(*old(refs)) + game_refs(more),
{
    refs.inner.extend(more.inner)
}

} // verus!
