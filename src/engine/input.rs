use vstd::prelude::*;

verus! {

/// Edge-tracked state of one key: held now, went down this frame, came up this frame.
#[derive(Clone, Copy, PartialEq, Eq, Debug, Structural)]
pub struct KeyState {
    pub down: bool,
    pub pressed: bool,
    pub released: bool,
}

impl Default for KeyState {
    fn default() -> (k: KeyState)
        ensures
            k == (KeyState { down: false, pressed: false, released: false }),
    {
        KeyState { down: false, pressed: false, released: false }
    }
}

impl KeyState {
    /// The key went down: `pressed` is set only on the transition from up.
    pub fn press(&mut self)
        ensures
            final(self).down,
            final(self).pressed == (old(self).pressed || !old(self).down),
            final(self).released == old(self).released,
    {
        if !self.down {
            self.pressed = true;
        }
        self.down = true;
    }

    /// The key came up: `released` is set only on the transition from down.
    pub fn release(&mut self)
        ensures
            !final(self).down,
            final(self).released == (old(self).released || old(self).down),
            final(self).pressed == old(self).pressed,
    {
        if self.down {
            self.released = true;
        }
        self.down = false;
    }

    /// A new frame starts: the edge flags are cleared, the held state stays.
    pub fn begin_frame(&mut self)
        ensures
            final(self).down == old(self).down,
            !final(self).pressed,
            !final(self).released,
    {
        self.pressed = false;
        self.released = false;
    }
}

} // verus!
