use vstd::prelude::*;

verus! {

/// A camera movement direction.
#[derive(Clone, Copy, PartialEq, Eq, Debug, Structural)]
pub enum CameraMove {
    Forward,
    Backward,
    Left,
    Right,
    Up,
    Down,
}

} // verus!
