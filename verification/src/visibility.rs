//! Schmitt-trigger visibility gating: a latch that opens only at a strict
//! visibility bar but stays open down to a lenient one, so a landmark
//! hovering at the boundary holds its last decision instead of flickering.
//! The caller compares the frame's visibility against the two bars.

use vstd::prelude::*;

verus! {

/// One landmark's Schmitt visibility gate.
#[derive(Clone, Copy, Debug, PartialEq, Eq, Structural)]
pub struct VisibilityLatch {
    open: bool,
}

impl Default for VisibilityLatch {
    /// A closed latch.
    fn default() -> (l: Self)
        ensures
            !l.is_open_spec(),
    {
        VisibilityLatch { open: false }
    }
}

impl VisibilityLatch {
    /// Whether the latch is open.
    pub closed spec fn is_open_spec(&self) -> bool {
        self.open
    }

    /// Advance the latch with this frame's comparisons against the two bars
    /// (`clears_open_bar`: visibility at or above the strict admission bar;
    /// `clears_close_bar`: at or above the lenient hold bar); returns
    /// whether the landmark is let through.
    pub fn step_gate(&mut self, clears_open_bar: bool, clears_close_bar: bool) -> (pass: bool)
        ensures
            pass == final(self).is_open_spec(),
            pass == (if old(self).is_open_spec() {
                clears_close_bar
            } else {
                clears_open_bar
            }),
    {
        self.open = if self.open {
            clears_close_bar
        } else {
            clears_open_bar
        };
        self.open
    }

    /// Whether the latch is currently open (the last step's decision).
    pub fn is_open(&self) -> (b: bool)
        ensures
            b == self.is_open_spec(),
    {
        self.open
    }

    /// Close the latch (slot emptied / body absent).
    pub fn reset(&mut self)
        ensures
            !final(self).is_open_spec(),
    {
        self.open = false;
    }
}

/// No chatter inside the band: a closed latch opens only on the strict bar,
/// an open latch closes only below the lenient bar, and a frame inside the
/// band (lenient cleared, strict not) keeps whatever the latch decided
/// last.
pub proof fn lemma_latch_is_hysteretic(was_open: bool, clears_open_bar: bool, clears_close_bar: bool)
    requires
        clears_open_bar ==> clears_close_bar,
    ensures
        ({
            let now = if was_open {
                clears_close_bar
            } else {
                clears_open_bar
            };
            &&& (!was_open && now) ==> clears_open_bar
            &&& (was_open && !now) ==> !clears_close_bar
            &&& (clears_close_bar && !clears_open_bar) ==> now == was_open
            &&& clears_open_bar ==> now
            &&& !clears_close_bar ==> !now
        }),
{
}

} // verus!
