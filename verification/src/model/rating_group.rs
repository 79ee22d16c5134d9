//! Buckets of the average rating of the two players, and a value for each
//! of them.

use vstd::prelude::*;

verus! {

/// A bucket of average ratings, named by its lower bound.
#[derive(Debug, Copy, Clone, PartialEq, Eq, Structural, Hash)]
pub enum RatingGroup {
    GroupLow,
    Group1600,
    Group1800,
    Group2000,
    Group2200,
    Group2500,
    Group2800,
    Group3200,
}

impl RatingGroup {
    /// The number of rating groups.
    pub const COUNT: usize = 8;

    /// The bucket of two players: that of the average of their ratings,
    /// rounded down.
    pub open spec fn spec_select(mover_rating: u16, opponent_rating: u16) -> RatingGroup {
        let avg = (mover_rating + opponent_rating) / 2;
        if avg < 1600 {
            RatingGroup::GroupLow
        } else if avg < 1800 {
            RatingGroup::Group1600
        } else if avg < 2000 {
            RatingGroup::Group1800
        } else if avg < 2200 {
            RatingGroup::Group2000
        } else if avg < 2500 {
            RatingGroup::Group2200
        } else if avg < 2800 {
            RatingGroup::Group2500
        } else if avg < 3200 {
            RatingGroup::Group2800
        } else {
            RatingGroup::Group3200
        }
    }

    /// The place of this group among the groups, lowest first, from 0.
    pub open spec fn spec_index(self) -> int {
        match self {
            RatingGroup::GroupLow => 0,
            RatingGroup::Group1600 => 1,
            RatingGroup::Group1800 => 2,
            RatingGroup::Group2000 => 3,
            RatingGroup::Group2200 => 4,
            RatingGroup::Group2500 => 5,
            RatingGroup::Group2800 => 6,
            RatingGroup::Group3200 => 7,
        }
    }

    /// The group at place `i`; the highest beyond the last.
    pub open spec fn spec_from_index(i: int) -> RatingGroup {
        if i <= 0 {
            RatingGroup::GroupLow
        } else if i == 1 {
            RatingGroup::Group1600
        } else if i == 2 {
            RatingGroup::Group1800
        } else if i == 3 {
            RatingGroup::Group2000
        } else if i == 4 {
            RatingGroup::Group2200
        } else if i == 5 {
            RatingGroup::Group2500
        } else if i == 6 {
            RatingGroup::Group2800
        } else {
            RatingGroup::Group3200
        }
    }

    /// The bucket of two players.
    pub fn select(mover_rating: u16, opponent_rating: u16) -> (group: RatingGroup)
        ensures
            group == RatingGroup::spec_select(mover_rating, opponent_rating),
    {
        let avg: u32 = (mover_rating as u32 + opponent_rating as u32) / 2;
        if avg < 1600 {
            RatingGroup::GroupLow
        } else if avg < 1800 {
            RatingGroup::Group1600
        } else if avg < 2000 {
            RatingGroup::Group1800
        } else if avg < 2200 {
            RatingGroup::Group2000
        } else if avg < 2500 {
            RatingGroup::Group2200
        } else if avg < 2800 {
            RatingGroup::Group2500
        } else if avg < 3200 {
            RatingGroup::Group2800
        } else {
            RatingGroup::Group3200
        }
    }

    /// The bucket of two players is the same whoever of them moves.
    pub proof fn lemma_select_symmetric(a: u16, b: u16)
        ensures
            RatingGroup::spec_select(a, b) == RatingGroup::spec_select(b, a),
    {
    }

    /// The place of this group among the groups, lowest first, from 0.
    pub fn index(self) -> (i: usize)
        ensures
            i == self.spec_index(),
            i < RatingGroup::COUNT,
            RatingGroup::spec_from_index(i as int) == self,
    {
        match self {
            RatingGroup::GroupLow => 0,
            RatingGroup::Group1600 => 1,
            RatingGroup::Group1800 => 2,
            RatingGroup::Group2000 => 3,
            RatingGroup::Group2200 => 4,
            RatingGroup::Group2500 => 5,
            RatingGroup::Group2800 => 6,
            RatingGroup::Group3200 => 7,
        }
    }

    /// The group at place `i`.
    pub fn from_index(i: usize) -> (group: RatingGroup)
        requires
            i < RatingGroup::COUNT,
        ensures
            group == RatingGroup::spec_from_index(i as int),
            group.spec_index() == i,
    {
        if i == 0 {
            RatingGroup::GroupLow
        } else if i == 1 {
            RatingGroup::Group1600
        } else if i == 2 {
            RatingGroup::Group1800
        } else if i == 3 {
            RatingGroup::Group2000
        } else if i == 4 {
            RatingGroup::Group2200
        } else if i == 5 {
            RatingGroup::Group2500
        } else if i == 6 {
            RatingGroup::Group2800
        } else {
            RatingGroup::Group3200
        }
    }
}

/// One value for each rating group.
#[derive(Debug, Clone)]
pub struct ByRatingGroup<T> {
    pub group_low: T,
    pub group_1600: T,
    pub group_1800: T,
    pub group_2000: T,
    pub group_2200: T,
    pub group_2500: T,
    pub group_2800: T,
    pub group_3200: T,
}

impl<T> ByRatingGroup<T> {
    /// The value for `rating_group`.
    pub open spec fn spec_by_rating_group(self, rating_group: RatingGroup) -> T {
        match rating_group {
            RatingGroup::GroupLow => self.group_low,
            RatingGroup::Group1600 => self.group_1600,
            RatingGroup::Group1800 => self.group_1800,
            RatingGroup::Group2000 => self.group_2000,
            RatingGroup::Group2200 => self.group_2200,
            RatingGroup::Group2500 => self.group_2500,
            RatingGroup::Group2800 => self.group_2800,
            RatingGroup::Group3200 => self.group_3200,
        }
    }

    /// These values with `value` in the place of the one for `rating_group`.
    pub open spec fn spec_update(self, rating_group: RatingGroup, value: T) -> ByRatingGroup<T> {
        match rating_group {
            RatingGroup::GroupLow => ByRatingGroup { group_low: value, ..self },
            RatingGroup::Group1600 => ByRatingGroup { group_1600: value, ..self },
            RatingGroup::Group1800 => ByRatingGroup { group_1800: value, ..self },
            RatingGroup::Group2000 => ByRatingGroup { group_2000: value, ..self },
            RatingGroup::Group2200 => ByRatingGroup { group_2200: value, ..self },
            RatingGroup::Group2500 => ByRatingGroup { group_2500: value, ..self },
            RatingGroup::Group2800 => ByRatingGroup { group_2800: value, ..self },
            RatingGroup::Group3200 => ByRatingGroup { group_3200: value, ..self },
        }
    }

    /// The value for `rating_group`.
    pub fn by_rating_group(&self, rating_group: RatingGroup) -> (value: &T)
        ensures
            *value == self.spec_by_rating_group(rating_group),
    {
        match rating_group {
            RatingGroup::GroupLow => &self.group_low,
            RatingGroup::Group1600 => &self.group_1600,
            RatingGroup::Group1800 => &self.group_1800,
            RatingGroup::Group2000 => &self.group_2000,
            RatingGroup::Group2200 => &self.group_2200,
            RatingGroup::Group2500 => &self.group_2500,
            RatingGroup::Group2800 => &self.group_2800,
            RatingGroup::Group3200 => &self.group_3200,
        }
    }

    /// The value for `rating_group`, to change it in place: whatever the
    /// caller leaves there becomes the value for `rating_group`, the others
    /// staying.
    pub fn by_rating_group_mut(&mut self, rating_group: RatingGroup) -> (value: &mut T)
        ensures
            *value == old(self).spec_by_rating_group(rating_group),
            *final(self) == old(self).spec_update(rating_group, *final(value)),
    {
        match rating_group {
            RatingGroup::GroupLow => &mut self.group_low,
            RatingGroup::Group1600 => &mut self.group_1600,
            RatingGroup::Group1800 => &mut self.group_1800,
            RatingGroup::Group2000 => &mut self.group_2000,
            RatingGroup::Group2200 => &mut self.group_2200,
            RatingGroup::Group2500 => &mut self.group_2500,
            RatingGroup::Group2800 => &mut self.group_2800,
            RatingGroup::Group3200 => &mut self.group_3200,
        }
    }

    /// A reference to each value.
    pub fn as_ref(&self) -> (refs: ByRatingGroup<&T>)
        ensures
            forall|rating_group: RatingGroup|
                *(#[trigger] refs.spec_by_rating_group(rating_group))
                    == self.spec_by_rating_group(rating_group),
    {
        ByRatingGroup {
            group_low: &self.group_low,
            group_1600: &self.group_1600,
            group_1800: &self.group_1800,
            group_2000: &self.group_2000,
            group_2200: &self.group_2200,
            group_2500: &self.group_2500,
            group_2800: &self.group_2800,
            group_3200: &self.group_3200,
        }
    }

    /// Whether `f`, called on the groups in order up to and without the one at
    /// place `upto`, may have returned `Ok` each time, with the values of
    /// `mapped`.
    pub open spec fn mapped_upto<U, E, F: Fn(RatingGroup, T) -> Result<U, E>>(
        self,
        f: F,
        mapped: ByRatingGroup<U>,
        upto: int,
    ) -> bool {
        forall|i: int|
            0 <= i < upto && i < 8 ==> call_ensures(
                f,
                (
                    #[trigger] RatingGroup::spec_from_index(i),
                    self.spec_by_rating_group(RatingGroup::spec_from_index(i)),
                ),
                Ok(mapped.spec_by_rating_group(RatingGroup::spec_from_index(i))),
            )
    }

    /// Calls `f` on each group and its value, lowest group first, and
    /// collects what it returns; stops at the first error and returns it.
    pub fn try_map<U, E, F>(self, f: F) -> (r: Result<ByRatingGroup<U>, E>) where
        F: Fn(RatingGroup, T) -> Result<U, E>,

        requires
            forall|rating_group: RatingGroup|
                call_requires(f, (rating_group, #[trigger] self.spec_by_rating_group(rating_group))),
        ensures
            match r {
                Ok(mapped) => self.mapped_upto(f, mapped, 8),
                Err(e) => exists|mapped: ByRatingGroup<U>, i: int|
                    0 <= i < 8 && #[trigger] self.mapped_upto(f, mapped, i) && call_ensures(
                        f,
                        (
                            RatingGroup::spec_from_index(i),
                            self.spec_by_rating_group(RatingGroup::spec_from_index(i)),
                        ),
                        Err(e),
                    ),
            },
    {
        let ghost me = self;
        proof {
            assert forall|i: int| 0 <= i < 8 implies call_requires(
                f,
                (
                    #[trigger] RatingGroup::spec_from_index(i),
                    me.spec_by_rating_group(RatingGroup::spec_from_index(i)),
                ),
            ) by {
                let value = me.spec_by_rating_group(RatingGroup::spec_from_index(i));
            }
            assert(RatingGroup::spec_from_index(0) == RatingGroup::GroupLow);
            assert(RatingGroup::spec_from_index(1) == RatingGroup::Group1600);
            assert(RatingGroup::spec_from_index(2) == RatingGroup::Group1800);
            assert(RatingGroup::spec_from_index(3) == RatingGroup::Group2000);
            assert(RatingGroup::spec_from_index(4) == RatingGroup::Group2200);
            assert(RatingGroup::spec_from_index(5) == RatingGroup::Group2500);
            assert(RatingGroup::spec_from_index(6) == RatingGroup::Group2800);
            assert(RatingGroup::spec_from_index(7) == RatingGroup::Group3200);
        }
        let group_low = match f(RatingGroup::GroupLow, self.group_low) {
            Ok(v) => v,
            Err(e) => {
                assert(me.mapped_upto(f, arbitrary(), 0));
                return Err(e);
            },
        };
        let group_1600 = match f(RatingGroup::Group1600, self.group_1600) {
            Ok(v) => v,
            Err(e) => {
                let ghost m = ByRatingGroup::<U> { group_low, ..arbitrary() };
                assert(me.mapped_upto(f, m, 1));
                return Err(e);
            },
        };
        let group_1800 = match f(RatingGroup::Group1800, self.group_1800) {
            Ok(v) => v,
            Err(e) => {
                let ghost m = ByRatingGroup::<U> { group_low, group_1600, ..arbitrary() };
                assert(me.mapped_upto(f, m, 2));
                return Err(e);
            },
        };
        let group_2000 = match f(RatingGroup::Group2000, self.group_2000) {
            Ok(v) => v,
            Err(e) => {
                let ghost m = ByRatingGroup::<U> {
                    group_low,
                    group_1600,
                    group_1800,
                    ..arbitrary()
                };
                assert(me.mapped_upto(f, m, 3));
                return Err(e);
            },
        };
        let group_2200 = match f(RatingGroup::Group2200, self.group_2200) {
            Ok(v) => v,
            Err(e) => {
                let ghost m = ByRatingGroup::<U> {
                    group_low,
                    group_1600,
                    group_1800,
                    group_2000,
                    ..arbitrary()
                };
                assert(me.mapped_upto(f, m, 4));
                return Err(e);
            },
        };
        let group_2500 = match f(RatingGroup::Group2500, self.group_2500) {
            Ok(v) => v,
            Err(e) => {
                let ghost m = ByRatingGroup::<U> {
                    group_low,
                    group_1600,
                    group_1800,
                    group_2000,
                    group_2200,
                    ..arbitrary()
                };
                assert(me.mapped_upto(f, m, 5));
                return Err(e);
            },
        };
        let group_2800 = match f(RatingGroup::Group2800, self.group_2800) {
            Ok(v) => v,
            Err(e) => {
                let ghost m = ByRatingGroup::<U> {
                    group_low,
                    group_1600,
                    group_1800,
                    group_2000,
                    group_2200,
                    group_2500,
                    ..arbitrary()
                };
                assert(me.mapped_upto(f, m, 6));
                return Err(e);
            },
        };
        let group_3200 = match f(RatingGroup::Group3200, self.group_3200) {
            Ok(v) => v,
            Err(e) => {
                let ghost m = ByRatingGroup::<U> {
                    group_low,
                    group_1600,
                    group_1800,
                    group_2000,
                    group_2200,
                    group_2500,
                    group_2800,
                    ..arbitrary()
                };
                assert(me.mapped_upto(f, m, 7));
                return Err(e);
            },
        };
        Ok(
            ByRatingGroup {
                group_low,
                group_1600,
                group_1800,
                group_2000,
                group_2200,
                group_2500,
                group_2800,
                group_3200,
            },
        )
    }
}

} // verus!
