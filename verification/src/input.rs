//! Input bookkeeping: the per-binding click and hold state that the
//! windowing layer drives and the command dispatch reads.

use vstd::prelude::*;

verus! {

/// The commands a physical key or mouse button can be bound to.
#[derive(Copy, Clone, Eq, PartialEq, Structural, Hash, Debug)]
pub enum BindingType {
    RotateLeft,
    RotateRight,
    Forward,
    Backward,
    Right,
    Left,
    PlaceNode,
    Pathfind,
    SelectNode,
    SelectEdge,
    SetStart,
    SetEnd,
}

/// The state of one binding: how many unconsumed clicks it has received,
/// and whether it is currently held down.
pub struct KeyBinding {
    click_count: u16,
    is_down: bool,
}

impl KeyBinding {
    pub closed spec fn spec_clicks(self) -> u16 {
        self.click_count
    }

    pub closed spec fn spec_down(self) -> bool {
        self.is_down
    }

    /// A binding with no pending clicks, not held.
    pub fn new() -> (r: KeyBinding)
        ensures
            r.spec_clicks() == 0,
            !r.spec_down(),
    {
        KeyBinding { click_count: 0, is_down: false }
    }

    /// Whether the binding is currently held down.
    pub fn is_down(&self) -> (r: bool)
        ensures
            r == self.spec_down(),
    {
        self.is_down
    }

    /// Consume every pending click at once; reports whether there was at
    /// least one.
    pub fn consume_all_clicks(&mut self) -> (r: bool)
        ensures
            r == (old(self).spec_clicks() > 0),
            final(self).spec_clicks() == 0,
            final(self).spec_down() == old(self).spec_down(),
    {
        if self.click_count > 0 {
            self.click_count = 0;
            return true;
        }
        false
    }

    /// Consume one pending click; reports whether one was pending.
    pub fn consume_click(&mut self) -> (r: bool)
        ensures
            r == (old(self).spec_clicks() > 0),
            final(self).spec_clicks() == if old(self).spec_clicks() > 0 {
                (old(self).spec_clicks() - 1) as u16
            } else {
                0u16
            },
            final(self).spec_down() == old(self).spec_down(),
    {
        if self.click_count > 0 {
            self.click_count = self.click_count - 1;
            return true;
        }
        false
    }

    /// Record a press: one more pending click, and the binding is held.
    /// The click counter saturates rather than wraps.
    pub fn handle_down(&mut self)
        ensures
            final(self).spec_clicks() == if old(self).spec_clicks() < u16::MAX {
                (old(self).spec_clicks() + 1) as u16
            } else {
                u16::MAX
            },
            final(self).spec_down(),
    {
        if self.click_count < u16::MAX {
            self.click_count = self.click_count + 1;
        }
        self.is_down = true;
    }

    /// Record a key-repeat: one more pending click; the hold state is
    /// unchanged. The click counter saturates rather than wraps.
    pub fn handle_repeat(&mut self)
        ensures
            final(self).spec_clicks() == if old(self).spec_clicks() < u16::MAX {
                (old(self).spec_clicks() + 1) as u16
            } else {
                u16::MAX
            },
            final(self).spec_down() == old(self).spec_down(),
    {
        if self.click_count < u16::MAX {
            self.click_count = self.click_count + 1;
        }
    }

    /// Record a release: the binding is no longer held; pending clicks
    /// stay consumable.
    pub fn handle_release(&mut self)
        ensures
            final(self).spec_clicks() == old(self).spec_clicks(),
            !final(self).spec_down(),
    {
        self.is_down = false;
    }
}

} // verus!
