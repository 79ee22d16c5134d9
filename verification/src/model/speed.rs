//! Time-control buckets, and a value for each of them.

use vstd::prelude::*;

verus! {

/// The time control of a game.
#[derive(Debug, Copy, Clone, PartialEq, Eq, Structural, Hash)]
pub enum Speed {
    UltraBullet,
    Bullet,
    Blitz,
    Rapid,
    Classical,
    Correspondence,
}

/// Whether both sides' ratings change with the result.
#[derive(Debug, Copy, Clone, PartialEq, Eq, Structural, Hash)]
pub enum Mode {
    Rated,
    Casual,
}

impl Mode {
    /// The mode of a game that is rated, or not.
    pub fn from_rated(rated: bool) -> (mode: Mode)
        ensures
            mode == if rated {
                Mode::Rated
            } else {
                Mode::Casual
            },
    {
        if rated {
            Mode::Rated
        } else {
            Mode::Casual
        }
    }

    /// The number of modes.
    pub const COUNT: usize = 2;

    /// The place of this mode among the modes: 0 for casual, 1 for rated.
    pub open spec fn spec_index(self) -> int {
        match self {
            Mode::Casual => 0,
            Mode::Rated => 1,
        }
    }

    /// The mode at place `i`; rated beyond the first.
    pub open spec fn spec_from_index(i: int) -> Mode {
        if i <= 0 {
            Mode::Casual
        } else {
            Mode::Rated
        }
    }

    /// The place of this mode among the modes: 0 for casual, 1 for rated.
    pub fn index(self) -> (i: usize)
        ensures
            i == self.spec_index(),
            i < Mode::COUNT,
            Mode::spec_from_index(i as int) == self,
    {
        match self {
            Mode::Casual => 0,
            Mode::Rated => 1,
        }
    }

    /// The mode at place `i`.
    pub fn from_index(i: usize) -> (mode: Mode)
        requires
            i < Mode::COUNT,
        ensures
            mode == Mode::spec_from_index(i as int),
            mode.spec_index() == i,
    {
        if i == 0 {
            Mode::Casual
        } else {
            Mode::Rated
        }
    }

    /// Whether this is [`Mode::Rated`].
    pub fn is_rated(self) -> (rated: bool)
        ensures
            rated == (self == Mode::Rated),
    {
        match self {
            Mode::Rated => true,
            Mode::Casual => false,
        }
    }
}

impl Speed {
    /// The number of speeds.
    pub const COUNT: usize = 6;

    /// The place of this speed among the speeds, fastest first, from 0.
    pub open spec fn spec_index(self) -> int {
        match self {
            Speed::UltraBullet => 0,
            Speed::Bullet => 1,
            Speed::Blitz => 2,
            Speed::Rapid => 3,
            Speed::Classical => 4,
            Speed::Correspondence => 5,
        }
    }

    /// The speed at place `i`; [`Speed::Correspondence`] beyond the last.
    pub open spec fn spec_from_index(i: int) -> Speed {
        if i <= 0 {
            Speed::UltraBullet
        } else if i == 1 {
            Speed::Bullet
        } else if i == 2 {
            Speed::Blitz
        } else if i == 3 {
            Speed::Rapid
        } else if i == 4 {
            Speed::Classical
        } else {
            Speed::Correspondence
        }
    }

    /// The place of this speed among the speeds, fastest first, from 0.
    pub fn index(self) -> (i: usize)
        ensures
            i == self.spec_index(),
            i < Speed::COUNT,
            Speed::spec_from_index(i as int) == self,
    {
        match self {
            Speed::UltraBullet => 0,
            Speed::Bullet => 1,
            Speed::Blitz => 2,
            Speed::Rapid => 3,
            Speed::Classical => 4,
            Speed::Correspondence => 5,
        }
    }

    /// The speed at place `i`.
    pub fn from_index(i: usize) -> (speed: Speed)
        requires
            i < Speed::COUNT,
        ensures
            speed == Speed::spec_from_index(i as int),
            speed.spec_index() == i,
    {
        if i == 0 {
            Speed::UltraBullet
        } else if i == 1 {
            Speed::Bullet
        } else if i == 2 {
            Speed::Blitz
        } else if i == 3 {
            Speed::Rapid
        } else if i == 4 {
            Speed::Classical
        } else {
            Speed::Correspondence
        }
    }
}

/// One value for each speed.
#[derive(Debug, Clone)]
pub struct BySpeed<T> {
    pub ultra_bullet: T,
    pub bullet: T,
    pub blitz: T,
    pub rapid: T,
    pub classical: T,
    pub correspondence: T,
}

impl<T> BySpeed<T> {
    /// The value for `speed`.
    pub open spec fn spec_by_speed(self, speed: Speed) -> T {
        match speed {
            Speed::UltraBullet => self.ultra_bullet,
            Speed::Bullet => self.bullet,
            Speed::Blitz => self.blitz,
            Speed::Rapid => self.rapid,
            Speed::Classical => self.classical,
            Speed::Correspondence => self.correspondence,
        }
    }

    /// These values with `value` in the place of the one for `speed`.
    pub open spec fn spec_update(self, speed: Speed, value: T) -> BySpeed<T> {
        match speed {
            Speed::UltraBullet => BySpeed { ultra_bullet: value, ..self },
            Speed::Bullet => BySpeed { bullet: value, ..self },
            Speed::Blitz => BySpeed { blitz: value, ..self },
            Speed::Rapid => BySpeed { rapid: value, ..self },
            Speed::Classical => BySpeed { classical: value, ..self },
            Speed::Correspondence => BySpeed { correspondence: value, ..self },
        }
    }

    /// The value for `speed`.
    pub fn by_speed(&self, speed: Speed) -> (value: &T)
        ensures
            *value == self.spec_by_speed(speed),
    {
        match speed {
            Speed::UltraBullet => &self.ultra_bullet,
            Speed::Bullet => &self.bullet,
            Speed::Blitz => &self.blitz,
            Speed::Rapid => &self.rapid,
            Speed::Classical => &self.classical,
            Speed::Correspondence => &self.correspondence,
        }
    }

    /// The value for `speed`, to change it in place: whatever the caller
    /// leaves there becomes the value for `speed`, the others staying.
    pub fn by_speed_mut(&mut self, speed: Speed) -> (value: &mut T)
        ensures
            *value == old(self).spec_by_speed(speed),
            *final(self) == old(self).spec_update(speed, *final(value)),
    {
        match speed {
            Speed::UltraBullet => &mut self.ultra_bullet,
            Speed::Bullet => &mut self.bullet,
            Speed::Blitz => &mut self.blitz,
            Speed::Rapid => &mut self.rapid,
            Speed::Classical => &mut self.classical,
            Speed::Correspondence => &mut self.correspondence,
        }
    }

    /// A reference to each value.
    pub fn as_ref(&self) -> (refs: BySpeed<&T>)
        ensures
            forall|speed: Speed| *(#[trigger] refs.spec_by_speed(speed)) == self.spec_by_speed(speed),
    {
        BySpeed {
            ultra_bullet: &self.ultra_bullet,
            bullet: &self.bullet,
            blitz: &self.blitz,
            rapid: &self.rapid,
            classical: &self.classical,
            correspondence: &self.correspondence,
        }
    }
}

/// One value for each mode.
#[derive(Debug, Clone)]
pub struct ByMode<T> {
    pub rated: T,
    pub casual: T,
}

impl<T> ByMode<T> {
    /// The value for `mode`.
    pub open spec fn spec_by_mode(self, mode: Mode) -> T {
        match mode {
            Mode::Rated => self.rated,
            Mode::Casual => self.casual,
        }
    }

    /// These values with `value` in the place of the one for `mode`.
    pub open spec fn spec_update(self, mode: Mode, value: T) -> ByMode<T> {
        match mode {
            Mode::Rated => ByMode { rated: value, ..self },
            Mode::Casual => ByMode { casual: value, ..self },
        }
    }

    /// The value for `mode`.
    pub fn by_mode(&self, mode: Mode) -> (value: &T)
        ensures
            *value == self.spec_by_mode(mode),
    {
        match mode {
            Mode::Rated => &self.rated,
            Mode::Casual => &self.casual,
        }
    }

    /// The value for `mode`, to change it in place: whatever the caller
    /// leaves there becomes the value for `mode`, the other staying.
    pub fn by_mode_mut(&mut self, mode: Mode) -> (value: &mut T)
        ensures
            *value == old(self).spec_by_mode(mode),
            *final(self) == old(self).spec_update(mode, *final(value)),
    {
        match mode {
            Mode::Rated => &mut self.rated,
            Mode::Casual => &mut self.casual,
        }
    }

    /// A reference to each value.
    pub fn as_ref(&self) -> (refs: ByMode<&T>)
        ensures
            forall|mode: Mode| *(#[trigger] refs.spec_by_mode(mode)) == self.spec_by_mode(mode),
    {
        ByMode { rated: &self.rated, casual: &self.casual }
    }
}

} // verus!
