//! Digital input helpers: a bipolar axis driven by two buttons, where
//! the most recently pressed direction wins.

use vstd::prelude::*;

verus! {

/// A two-button axis. Each press records a timestamp-like rank one
/// above the opposite side's, so the later press dominates.
#[derive(Debug, Default, Clone, Copy, PartialEq, Eq, Structural)]
pub struct Bipole(pub i32, pub i32);

impl Bipole {
    /// Press or release the positive direction.
    pub fn pos(&mut self, go: bool)
        requires
            old(self).0 < i32::MAX,
        ensures
            final(self).0 == old(self).0,
            final(self).1 == if go { old(self).0 + 1 } else { 0 },
    {
        if go {
            self.1 = self.0 + 1;
        } else {
            self.1 = 0;
        }
    }

    /// Press or release the negative direction.
    pub fn neg(&mut self, go: bool)
        requires
            old(self).1 < i32::MAX,
        ensures
            final(self).1 == old(self).1,
            final(self).0 == if go { old(self).1 + 1 } else { 0 },
    {
        if go {
            self.0 = self.1 + 1;
        } else {
            self.0 = 0;
        }
    }

    /// The axis value: the sign of whichever side pressed last.
    pub fn eval(self) -> (r: i32)
        ensures
            r == if self.1 > self.0 { 1int } else if self.1 < self.0 { -1int } else { 0int },
    {
        if self.1 > self.0 {
            1
        } else if self.1 < self.0 {
            -1
        } else {
            0
        }
    }
}

/// The game actions a key can map to.
#[derive(Debug, Clone, Copy, PartialEq, Eq, Structural)]
pub enum Button {
    Forward,
    Back,
    Left,
    Right,
    Ascend,
    Descend,
    Fast,
}

} // verus!
