use vstd::prelude::*;

verus! {

/// The six axis-aligned face directions of a voxel.
#[derive(Clone, Copy, PartialEq, Eq, Debug, Structural)]
pub enum Face {
    Left,
    Right,
    Bottom,
    Top,
    Back,
    Front,
}

pub open spec fn face_index(f: Face) -> int {
    match f {
        Face::Left => 0,
        Face::Right => 1,
        Face::Bottom => 2,
        Face::Top => 3,
        Face::Back => 4,
        Face::Front => 5,
    }
}

pub open spec fn face_of_index(i: int) -> Face {
    if i == 0 {
        Face::Left
    } else if i == 1 {
        Face::Right
    } else if i == 2 {
        Face::Bottom
    } else if i == 3 {
        Face::Top
    } else if i == 4 {
        Face::Back
    } else {
        Face::Front
    }
}

/// Unit step from a voxel to its neighbour across the face.
pub open spec fn face_step(f: Face) -> (int, int, int) {
    match f {
        Face::Left => (-1, 0, 0),
        Face::Right => (1, 0, 0),
        Face::Bottom => (0, -1, 0),
        Face::Top => (0, 1, 0),
        Face::Back => (0, 0, -1),
        Face::Front => (0, 0, 1),
    }
}

/// The voxel at in-plane cell `(u, v)` of layer `d` for faces of direction `f`.
/// X faces use `(y, z)`, Y faces `(x, z)` and Z faces `(x, y)` as `(u, v)`.
pub open spec fn slice_voxel(f: Face, d: int, u: int, v: int) -> (int, int, int) {
    match f {
        Face::Left | Face::Right => (d, u, v),
        Face::Bottom | Face::Top => (u, d, v),
        Face::Back | Face::Front => (u, v, d),
    }
}

impl Face {
    pub fn from_index(i: usize) -> (f: Face)
        requires
            i < 6,
        ensures
            f == face_of_index(i as int),
            face_index(f) == i,
    {
        if i == 0 {
            Face::Left
        } else if i == 1 {
            Face::Right
        } else if i == 2 {
            Face::Bottom
        } else if i == 3 {
            Face::Top
        } else if i == 4 {
            Face::Back
        } else {
            Face::Front
        }
    }

    pub fn step(self) -> (r: (i32, i32, i32))
        ensures
            (r.0 as int, r.1 as int, r.2 as int) == face_step(self),
    {
        match self {
            Face::Left => (-1, 0, 0),
            Face::Right => (1, 0, 0),
            Face::Bottom => (0, -1, 0),
            Face::Top => (0, 1, 0),
            Face::Back => (0, 0, -1),
            Face::Front => (0, 0, 1),
        }
    }

    /// Flat directional shade of the face, in percent of full brightness.
    pub fn shade_percent(self) -> (r: u8)
        ensures
            r == match self {
                Face::Left | Face::Right => 70u8,
                Face::Bottom => 50u8,
                Face::Top => 100u8,
                Face::Back | Face::Front => 80u8,
            },
    {
        match self {
            Face::Left | Face::Right => 70,
            Face::Bottom => 50,
            Face::Top => 100,
            Face::Back | Face::Front => 80,
        }
    }
}

} // verus!
