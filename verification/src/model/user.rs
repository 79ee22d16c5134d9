//! Player names in their canonical, lowercased form.

use vstd::prelude::*;

verus! {

/// The lowercase form of `name`, as std maps the characters of Unicode.
pub uninterp spec fn spec_lowercase(name: Seq<char>) -> Seq<char>;

/// `str::to_lowercase` of std. Trusted: the result is a function of the
/// characters of `name` alone.
#[verifier::external_body]
fn to_lowercase(name: &str) -> (lower: String)
    ensures
        lower@ == spec_lowercase(name@),
{
    name.to_lowercase()
}

/// The name of a player, lowercased. Its view is the characters of the name.
#[derive(Debug, Clone, PartialEq, Eq, Hash)]
pub struct UserId(String);

impl View for UserId {
    type V = Seq<char>;

    closed spec fn view(&self) -> Seq<char> {
        self.0@
    }
}

impl UserId {
    /// The identifier of the player called `name`.
    pub fn new(name: &str) -> (id: UserId)
        ensures
            id@ == spec_lowercase(name@),
    {
        UserId(to_lowercase(name))
    }

    /// The lowercased name.
    pub fn as_str(&self) -> (name: &str)
        ensures
            name@ == self@,
    {
        self.0.as_str()
    }

    /// Whether `self` and `other` name the same player.
    pub fn same(&self, other: &UserId) -> (same: bool)
        ensures
            same == (self@ == other@),
    {
        self.0 == other.0
    }

    /// A copy of this identifier.
    pub fn copy(&self) -> (id: UserId)
        ensures
            id@ == self@,
    {
        UserId(self.0.clone())
    }
}

} // verus!
