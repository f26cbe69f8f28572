//! Compass directions, screen-space locations and the four-way sensing tuple.
use vstd::prelude::*;

verus! {

/// The four points of the compass.
#[derive(PartialEq, Eq, Structural, Debug, Clone, Copy)]
pub enum Dir {
    N,
    E,
    W,
    S,
}

/// The direction that undoes a step in `d`.
pub open spec fn opposite(d: Dir) -> Dir {
    match d {
        Dir::N => Dir::S,
        Dir::S => Dir::N,
        Dir::E => Dir::W,
        Dir::W => Dir::E,
    }
}

/// Horizontal displacement of one step: East moves towards smaller x, West towards larger x.
pub open spec fn dx(d: Dir) -> int {
    match d {
        Dir::E => -1,
        Dir::W => 1,
        _ => 0,
    }
}

/// Vertical displacement of one step: North moves up (smaller y), South down.
pub open spec fn dy(d: Dir) -> int {
    match d {
        Dir::N => -1,
        Dir::S => 1,
        _ => 0,
    }
}

impl Dir {
    /// The direction that undoes a step in `self`.
    pub fn opposite(self) -> (r: Dir)
        ensures
            r == opposite(self),
    {
        match self {
            Dir::N => Dir::S,
            Dir::S => Dir::N,
            Dir::E => Dir::W,
            Dir::W => Dir::E,
        }
    }
}

/// A map location in screen coordinates: y grows downwards.
#[derive(PartialEq, Eq, Structural, Debug, Clone, Copy)]
pub struct Location {
    pub x: i32,
    pub y: i32,
}

/// Whether `v` fits in an `i32`.
pub open spec fn fits_i32(v: int) -> bool {
    i32::MIN <= v <= i32::MAX
}

impl Location {
    /// Whether moving `distance` steps in `dir` stays inside the `i32` range.
    pub open spec fn can_offset(self, dir: Dir, distance: int) -> bool {
        fits_i32(distance) && fits_i32(-distance) && fits_i32(self.x + dx(dir) * distance) && fits_i32(
            self.y + dy(dir) * distance,
        )
    }

    /// The location `distance` steps away in `dir`.
    pub open spec fn offset_spec(self, dir: Dir, distance: int) -> Location {
        Location {
            x: (self.x + dx(dir) * distance) as i32,
            y: (self.y + dy(dir) * distance) as i32,
        }
    }

    /// The neighbouring location in `dir`.
    pub open spec fn next_spec(self, dir: Dir) -> Location {
        self.offset_spec(dir, 1)
    }

    /// The location `distance` steps away in `dir`.
    pub fn offset(&self, dir: Dir, distance: i32) -> (r: Location)
        requires
            self.can_offset(dir, distance as int),
        ensures
            r == self.offset_spec(dir, distance as int),
            r.x == self.x + dx(dir) * distance,
            r.y == self.y + dy(dir) * distance,
    {
        let ddx: i32 = if dir == Dir::E {
            -distance
        } else if dir == Dir::W {
            distance
        } else {
            0
        };
        let ddy: i32 = if dir == Dir::N {
            -distance
        } else if dir == Dir::S {
            distance
        } else {
            0
        };
        Location { x: self.x + ddx, y: self.y + ddy }
    }

    /// The neighbouring location in `dir`.
    pub fn next(&self, dir: Dir) -> (r: Location)
        requires
            self.can_offset(dir, 1),
        ensures
            r == self.next_spec(dir),
            r.x == self.x + dx(dir),
            r.y == self.y + dy(dir),
    {
        self.offset(dir, 1)
    }
}

/// Stepping to a neighbour and back in the opposite direction returns to the start.
pub proof fn lemma_next_then_opposite(loc: Location, d: Dir)
    requires
        loc.can_offset(d, 1),
    ensures
        loc.next_spec(d).can_offset(opposite(d), 1),
        loc.next_spec(d).next_spec(opposite(d)) == loc,
{
}

/// For each direction, whether the neighbouring cell that way is a wall,
/// held in the order N, E, W, S.
#[derive(Debug, Clone, Copy)]
pub struct Nearby(pub [bool; 4]);

/// Position of a direction inside the N, E, W, S order.
pub open spec fn dir_index(d: Dir) -> int {
    match d {
        Dir::N => 0,
        Dir::E => 1,
        Dir::W => 2,
        Dir::S => 3,
    }
}

impl Nearby {
    /// The flag held for `dir`.
    pub open spec fn at(self, dir: Dir) -> bool {
        self.0@[dir_index(dir)]
    }

    /// The flag held for `dir`.
    pub fn get(&self, dir: Dir) -> (r: bool)
        ensures
            r == self.at(dir),
    {
        match dir {
            Dir::N => self.0[0],
            Dir::E => self.0[1],
            Dir::W => self.0[2],
            Dir::S => self.0[3],
        }
    }
}

} // verus!
