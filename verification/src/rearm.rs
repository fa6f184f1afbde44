//! Attract re-arm: put the attract circle back when Radiance has nothing
//! to draw for a whole window, unless the operator is at the machine.
//! Durations are in nanoseconds.

use vstd::prelude::*;

verus! {

/// Whether the stage is empty: no body-tracking state at all, or one with
/// no body in any slot. `bodies` is the number of occupied slots, counting
/// bodies still fading out (their particles are still on screen).
pub fn stage_is_empty(bodies: Option<usize>) -> (b: bool)
    ensures
        b == (match bodies {
            None => true,
            Some(n) => n == 0,
        }),
{
    match bodies {
        None => true,
        Some(n) => n == 0,
    }
}

/// Pure re-arm decision: the stage has been empty for at least the window,
/// no direct operator input landed within the window, and no settings panel
/// is open. The window boundary is inclusive.
pub fn should_rearm(empty_for_ns: u128, direct_idle_for_ns: u128, panel_open: bool, window_ns: u128) -> (b: bool)
    ensures
        b == (!panel_open && empty_for_ns >= window_ns && direct_idle_for_ns >= window_ns),
{
    !panel_open && empty_for_ns >= window_ns && direct_idle_for_ns >= window_ns
}

/// What one frame of the re-arm system decides.
#[derive(Clone, Copy, Debug, PartialEq, Eq, Structural)]
pub struct RearmStep {
    /// When the stage went empty (`None` while there is content, and after
    /// a force so the next empty stretch counts afresh).
    pub empty_since_ns: Option<u128>,
    /// Force the screensaver now.
    pub force: bool,
}

/// One frame of the re-arm countdown: content on stage clears the
/// countdown; an empty stage starts it (at `now` the first time) and forces
/// the screensaver once [`should_rearm`] holds, clearing the countdown.
pub fn rearm_step(
    empty_since_ns: Option<u128>,
    now_ns: u128,
    stage_empty: bool,
    direct_idle_for_ns: u128,
    panel_open: bool,
    window_ns: u128,
) -> (s: RearmStep)
    ensures
        !stage_empty ==> s == (RearmStep { empty_since_ns: None, force: false }),
        stage_empty ==> ({
            let since = match empty_since_ns {
                Some(t) => t,
                None => now_ns,
            };
            let empty_for = if now_ns >= since {
                now_ns - since
            } else {
                0
            };
            let fire = !panel_open && empty_for >= window_ns && direct_idle_for_ns >= window_ns;
            &&& s.force == fire
            &&& s.empty_since_ns == (if fire {
                None
            } else {
                Some(since)
            })
        }),
{
    if !stage_empty {
        return RearmStep { empty_since_ns: None, force: false };
    }
    let since = match empty_since_ns {
        Some(t) => t,
        None => now_ns,
    };
    let empty_for = now_ns.saturating_sub(since);
    if should_rearm(empty_for, direct_idle_for_ns, panel_open, window_ns) {
        RearmStep { empty_since_ns: None, force: true }
    } else {
        RearmStep { empty_since_ns: Some(since), force: false }
    }
}

/// Every guard independently blocks the force: an open panel, a stage that
/// went empty less than a window ago, or operator input inside the window.
pub proof fn lemma_every_guard_blocks(empty_for_ns: u128, direct_idle_for_ns: u128, panel_open: bool, window_ns: u128)
    ensures
        (panel_open || empty_for_ns < window_ns || direct_idle_for_ns < window_ns) ==> !(!panel_open
            && empty_for_ns >= window_ns && direct_idle_for_ns >= window_ns),
{
}

} // verus!
