//! Operator toggles for which sketches the next/previous button cycle
//! visits, and the filtered walk over the fixed sketch order.
//!
//! With every sketch disabled the walk yields `None` and next/prev become
//! no-ops. Non-cycle states (`Home`, the reserved `Waves` seam) sit "before
//! the first / after the last" entry.

use vstd::prelude::*;

verus! {

/// The application's top-level states: the home picker, the sketches, and
/// a reserved seam that is not part of the button cycle.
#[derive(Clone, Copy, Debug, PartialEq, Eq, Structural)]
pub enum AppState {
    /// The home picker.
    Home,
    /// The Line sketch.
    Line,
    /// The Flame sketch.
    Flame,
    /// The Dots sketch.
    Dots,
    /// The Cymatics sketch.
    Cymatics,
    /// The Radiance sketch.
    Radiance,
    /// Reserved, not a cycle stop.
    Waves,
}

/// Number of entries in the sketch cycle.
pub const CYCLE_LEN: usize = 5;

/// Position of a state in the sketch cycle, or `None` for a non-cycle state.
pub open spec fn cycle_position(s: AppState) -> Option<int> {
    match s {
        AppState::Line => Some(0),
        AppState::Flame => Some(1),
        AppState::Dots => Some(2),
        AppState::Cymatics => Some(3),
        AppState::Radiance => Some(4),
        AppState::Home | AppState::Waves => None,
    }
}

/// [`cycle_position`] as a machine index.
pub open spec fn cycle_index(s: AppState) -> Option<usize> {
    match cycle_position(s) {
        Some(i) => Some(i as usize),
        None => None,
    }
}

/// The sketch at a cycle position (`0..5`).
pub open spec fn cycle_entry(i: int) -> AppState {
    if i == 0 {
        AppState::Line
    } else if i == 1 {
        AppState::Flame
    } else if i == 2 {
        AppState::Dots
    } else if i == 3 {
        AppState::Cymatics
    } else {
        AppState::Radiance
    }
}

/// The unfiltered successor in the cycle (a non-cycle state steps onto the
/// first entry).
pub open spec fn unfiltered_next(s: AppState) -> AppState {
    match cycle_position(s) {
        Some(i) => cycle_entry((i + 1) % 5),
        None => cycle_entry(0),
    }
}

/// The unfiltered predecessor in the cycle (a non-cycle state steps onto the
/// last entry).
pub open spec fn unfiltered_prev(s: AppState) -> AppState {
    match cycle_position(s) {
        Some(i) => cycle_entry((i + 4) % 5),
        None => cycle_entry(4),
    }
}

impl AppState {
    /// The button cycle, in order.
    pub const SKETCH_ORDER: [AppState; 5] = [
        AppState::Line,
        AppState::Flame,
        AppState::Dots,
        AppState::Cymatics,
        AppState::Radiance,
    ];

    /// The next sketch in the unfiltered cycle (wrapping); from a non-cycle
    /// state, the first sketch.
    pub fn next_sketch(self) -> (next: AppState)
        ensures
            next == unfiltered_next(self),
    {
        match self {
            AppState::Line => AppState::Flame,
            AppState::Flame => AppState::Dots,
            AppState::Dots => AppState::Cymatics,
            AppState::Cymatics => AppState::Radiance,
            AppState::Radiance => AppState::Line,
            AppState::Home | AppState::Waves => AppState::Line,
        }
    }

    /// The previous sketch in the unfiltered cycle (wrapping); from a
    /// non-cycle state, the last sketch.
    pub fn prev_sketch(self) -> (prev: AppState)
        ensures
            prev == unfiltered_prev(self),
    {
        match self {
            AppState::Line => AppState::Radiance,
            AppState::Flame => AppState::Line,
            AppState::Dots => AppState::Flame,
            AppState::Cymatics => AppState::Dots,
            AppState::Radiance => AppState::Cymatics,
            AppState::Home | AppState::Waves => AppState::Radiance,
        }
    }
}

/// Per-sketch inclusion toggles for the next/previous sketch cycle.
#[derive(Clone, Copy, Debug, PartialEq, Eq, Structural)]
pub struct SketchCycleSettings {
    /// Include Line in the next/previous cycle.
    pub enable_line: bool,
    /// Include Flame in the next/previous cycle.
    pub enable_flame: bool,
    /// Include Dots in the next/previous cycle.
    pub enable_dots: bool,
    /// Include Cymatics in the next/previous cycle.
    pub enable_cymatics: bool,
    /// Include Radiance in the next/previous cycle.
    pub enable_radiance: bool,
}

impl Default for SketchCycleSettings {
    /// Every sketch defaults into the cycle.
    fn default() -> (s: Self)
        ensures
            s.enable_line && s.enable_flame && s.enable_dots && s.enable_cymatics
                && s.enable_radiance,
    {
        SketchCycleSettings::all_enabled()
    }
}

/// Walk direction over the cycle.
#[derive(Clone, Copy, Debug, PartialEq, Eq, Structural)]
pub enum Direction {
    /// Ascending cycle order (`next_enabled`).
    Forward,
    /// Descending cycle order (`prev_enabled`).
    Backward,
}

/// The cycle position reached `step` steps (`1..=5`) from `from` in
/// direction `dir`. A non-cycle state sits before the first entry going
/// forward and after the last going backward.
pub open spec fn position_after(from: AppState, dir: Direction, step: int) -> int {
    match (dir, cycle_position(from)) {
        (Direction::Forward, Some(i)) => (i + step) % 5,
        (Direction::Forward, None) => step - 1,
        (Direction::Backward, Some(i)) => (i + 5 - step) % 5,
        (Direction::Backward, None) => 5 - step,
    }
}

/// How many steps (`1..=5`) it takes from `from` in direction `dir` to
/// reach cycle position `t`; a full lap (5) returns to `from` itself.
pub open spec fn steps_to(from: AppState, dir: Direction, t: int) -> int {
    match (dir, cycle_position(from)) {
        (Direction::Forward, Some(i)) => (t - i + 4) % 5 + 1,
        (Direction::Forward, None) => t + 1,
        (Direction::Backward, Some(i)) => (i - t + 4) % 5 + 1,
        (Direction::Backward, None) => 5 - t,
    }
}

impl SketchCycleSettings {
    /// Whether `sketch` is a cycle stop (non-cycle states never are).
    pub open spec fn is_enabled(&self, sketch: AppState) -> bool {
        match sketch {
            AppState::Line => self.enable_line,
            AppState::Flame => self.enable_flame,
            AppState::Dots => self.enable_dots,
            AppState::Cymatics => self.enable_cymatics,
            AppState::Radiance => self.enable_radiance,
            AppState::Home | AppState::Waves => false,
        }
    }

    /// Whether at least one sketch is in the cycle.
    pub open spec fn any_enabled(&self) -> bool {
        exists|t: int| 0 <= t < 5 && #[trigger] self.is_enabled(cycle_entry(t))
    }

    /// The outcome of a walk: `None` exactly when no sketch is enabled;
    /// otherwise the enabled sketch at the fewest steps from `from` in the
    /// walk's direction (at least one step, so `from` itself only after a
    /// full lap).
    pub open spec fn nearest_enabled(&self, from: AppState, dir: Direction, r: Option<AppState>) -> bool {
        match r {
            None => !self.any_enabled(),
            Some(s) => {
                &&& cycle_position(s) is Some
                &&& self.is_enabled(s)
                &&& forall|t: int|
                    0 <= t < 5 && #[trigger] self.is_enabled(cycle_entry(t)) ==> steps_to(
                        from,
                        dir,
                        cycle_position(s)->0,
                    ) <= steps_to(from, dir, t)
            },
        }
    }

    /// Every sketch in the cycle (the settings default).
    pub fn all_enabled() -> (s: Self)
        ensures
            forall|t: int| 0 <= t < 5 ==> #[trigger] s.is_enabled(cycle_entry(t)),
            s.enable_line && s.enable_flame && s.enable_dots && s.enable_cymatics
                && s.enable_radiance,
    {
        SketchCycleSettings {
            enable_line: true,
            enable_flame: true,
            enable_dots: true,
            enable_cymatics: true,
            enable_radiance: true,
        }
    }

    /// Whether `sketch` is included in the cycle. Non-cycle states (`Home`,
    /// `Waves`) are never enabled.
    pub fn enabled(&self, sketch: AppState) -> (b: bool)
        ensures
            b == self.is_enabled(sketch),
    {
        match sketch {
            AppState::Line => self.enable_line,
            AppState::Flame => self.enable_flame,
            AppState::Dots => self.enable_dots,
            AppState::Cymatics => self.enable_cymatics,
            AppState::Radiance => self.enable_radiance,
            AppState::Home | AppState::Waves => false,
        }
    }

    /// The next enabled sketch after `from` (wrapping), or `None` when every
    /// sketch is disabled.
    pub fn next_enabled(&self, from: AppState) -> (r: Option<AppState>)
        ensures
            self.nearest_enabled(from, Direction::Forward, r),
    {
        self.walk(from, Direction::Forward)
    }

    /// The previous enabled sketch before `from` (wrapping), or `None` when
    /// every sketch is disabled.
    pub fn prev_enabled(&self, from: AppState) -> (r: Option<AppState>)
        ensures
            self.nearest_enabled(from, Direction::Backward, r),
    {
        self.walk(from, Direction::Backward)
    }

    /// Walk the cycle one full lap from `from`, returning the first enabled
    /// entry strictly after (forward) or before (backward) `from`.
    fn walk(&self, from: AppState, dir: Direction) -> (r: Option<AppState>)
        ensures
            self.nearest_enabled(from, dir, r),
    {
        let order = AppState::SKETCH_ORDER;
        let len = order.len();
        let start = position_in_cycle(from);
        let mut step: usize = 1;
        while step <= len
            invariant
                len == 5,
                1 <= step <= 6,
                start == cycle_index(from),
                order@ == seq![
                    AppState::Line,
                    AppState::Flame,
                    AppState::Dots,
                    AppState::Cymatics,
                    AppState::Radiance,
                ],
                forall|k: int|
                    1 <= k < step ==> !self.is_enabled(
                        cycle_entry(#[trigger] position_after(from, dir, k)),
                    ),
            decreases 6 - step,
        {
            let idx = match (dir, start) {
                (Direction::Forward, Some(i)) => (i + step) % len,
                (Direction::Forward, None) => step - 1,
                (Direction::Backward, Some(i)) => (i + len - (step % len)) % len,
                (Direction::Backward, None) => len - step,
            };
            assert(idx == position_after(from, dir, step as int));
            assert(order@[idx as int] == cycle_entry(idx as int));
            if self.enabled(order[idx]) {
                proof {
                    lemma_first_is_nearest(*self, from, dir, step as int);
                }
                return Some(order[idx]);
            }
            step = step + 1;
        }
        proof {
            lemma_lap_covers_all(*self, from, dir);
        }
        None
    }
}

/// The cycle position of a state, or `None` for a non-cycle state.
fn position_in_cycle(s: AppState) -> (r: Option<usize>)
    ensures
        r == cycle_index(s),
{
    match s {
        AppState::Line => Some(0),
        AppState::Flame => Some(1),
        AppState::Dots => Some(2),
        AppState::Cymatics => Some(3),
        AppState::Radiance => Some(4),
        AppState::Home | AppState::Waves => None,
    }
}

/// `position_after` and `steps_to` are inverse: `k` steps lands on a
/// position that is exactly `k` steps away.
proof fn lemma_steps_inverse(from: AppState, dir: Direction, k: int)
    requires
        1 <= k <= 5,
    ensures
        0 <= position_after(from, dir, k) < 5,
        steps_to(from, dir, position_after(from, dir, k)) == k,
{
}

/// Every position is reached within one lap, at its own step count.
proof fn lemma_steps_range(from: AppState, dir: Direction, t: int)
    requires
        0 <= t < 5,
    ensures
        1 <= steps_to(from, dir, t) <= 5,
        position_after(from, dir, steps_to(from, dir, t)) == t,
{
}

/// The first enabled candidate of the lap is the nearest enabled sketch.
proof fn lemma_first_is_nearest(settings: SketchCycleSettings, from: AppState, dir: Direction, k: int)
    requires
        1 <= k <= 5,
        settings.is_enabled(cycle_entry(position_after(from, dir, k))),
        forall|j: int|
            1 <= j < k ==> !settings.is_enabled(
                cycle_entry(#[trigger] position_after(from, dir, j)),
            ),
    ensures
        settings.nearest_enabled(from, dir, Some(cycle_entry(position_after(from, dir, k)))),
{
    lemma_steps_inverse(from, dir, k);
    let p = position_after(from, dir, k);
    assert(cycle_position(cycle_entry(p)) == Some(p));
    assert forall|t: int|
        0 <= t < 5 && #[trigger] settings.is_enabled(cycle_entry(t)) implies steps_to(from, dir, p) <= steps_to(from, dir, t) by {
        lemma_steps_range(from, dir, t);
        let j = steps_to(from, dir, t);
        if j < k {
            assert(!settings.is_enabled(cycle_entry(position_after(from, dir, j))));
        }
    }
}

/// A full lap with no enabled candidate means no sketch is enabled.
proof fn lemma_lap_covers_all(settings: SketchCycleSettings, from: AppState, dir: Direction)
    requires
        forall|j: int|
            1 <= j < 6 ==> !settings.is_enabled(
                cycle_entry(#[trigger] position_after(from, dir, j)),
            ),
    ensures
        !settings.any_enabled(),
{
    assert forall|t: int| 0 <= t < 5 implies !#[trigger] settings.is_enabled(cycle_entry(t)) by {
        lemma_steps_range(from, dir, t);
        let j = steps_to(from, dir, t);
        assert(!settings.is_enabled(cycle_entry(position_after(from, dir, j))));
    }
}

/// With every sketch enabled the filtered walk agrees with the unfiltered
/// cycle in both directions: the toggles are invisible until an operator
/// turns something off.
pub proof fn lemma_all_enabled_is_unfiltered(
    settings: SketchCycleSettings,
    from: AppState,
    next: Option<AppState>,
    prev: Option<AppState>,
)
    requires
        forall|t: int| 0 <= t < 5 ==> #[trigger] settings.is_enabled(cycle_entry(t)),
        settings.nearest_enabled(from, Direction::Forward, next),
        settings.nearest_enabled(from, Direction::Backward, prev),
    ensures
        next == Some(unfiltered_next(from)),
        prev == Some(unfiltered_prev(from)),
{
    assert(settings.is_enabled(cycle_entry(0)));
    let f = next->0;
    let b = prev->0;
    lemma_steps_inverse(from, Direction::Forward, 1);
    lemma_steps_inverse(from, Direction::Backward, 1);
    let pf = position_after(from, Direction::Forward, 1);
    let pb = position_after(from, Direction::Backward, 1);
    assert(settings.is_enabled(cycle_entry(pf)));
    assert(settings.is_enabled(cycle_entry(pb)));
    lemma_steps_range(from, Direction::Forward, cycle_position(f)->0);
    lemma_steps_range(from, Direction::Backward, cycle_position(b)->0);
}

/// The walk only ever lands on an enabled cycle stop, so a sketch that was
/// just disabled (including the current one) is never a destination, and
/// it lands somewhere whenever any sketch is enabled.
pub proof fn lemma_walk_lands_on_enabled(
    settings: SketchCycleSettings,
    from: AppState,
    dir: Direction,
    r: Option<AppState>,
)
    requires
        settings.nearest_enabled(from, dir, r),
    ensures
        r is Some <==> settings.any_enabled(),
        r matches Some(s) ==> settings.is_enabled(s) && s != AppState::Home && s != AppState::Waves,
{
    if let Some(s) = r {
        let p = cycle_position(s)->0;
        assert(s == cycle_entry(p));
        assert(settings.is_enabled(cycle_entry(p)));
    }
}

/// A single enabled sketch is found from anywhere, in either direction.
pub proof fn lemma_single_survivor_found(
    settings: SketchCycleSettings,
    from: AppState,
    dir: Direction,
    t: int,
    r: Option<AppState>,
)
    requires
        0 <= t < 5,
        settings.is_enabled(cycle_entry(t)),
        forall|u: int| 0 <= u < 5 && u != t ==> !#[trigger] settings.is_enabled(cycle_entry(u)),
        settings.nearest_enabled(from, dir, r),
    ensures
        r == Some(cycle_entry(t)),
{
    match r {
        None => {
            assert(settings.is_enabled(cycle_entry(t)));
        },
        Some(s) => {
            let p = cycle_position(s)->0;
            assert(s == cycle_entry(p));
            if p != t {
                assert(!settings.is_enabled(cycle_entry(p)));
            }
        },
    }
}

/// The two pedestal buttons undo each other on an enabled sketch: stepping
/// forward to the next enabled sketch and then back lands where it started,
/// and so does stepping back and then forward.
pub proof fn lemma_prev_undoes_next(
    settings: SketchCycleSettings,
    from: AppState,
    dir: Direction,
    there: AppState,
    back: Option<AppState>,
)
    requires
        settings.is_enabled(from),
        settings.nearest_enabled(from, dir, Some(there)),
        settings.nearest_enabled(
            there,
            match dir {
                Direction::Forward => Direction::Backward,
                Direction::Backward => Direction::Forward,
            },
            back,
        ),
    ensures
        back == Some(from),
{
    let rev = match dir {
        Direction::Forward => Direction::Backward,
        Direction::Backward => Direction::Forward,
    };
    let i = cycle_position(from)->0;
    let j = cycle_position(there)->0;
    assert(from == cycle_entry(i));
    assert(there == cycle_entry(j));
    assert(settings.is_enabled(cycle_entry(i)));
    // `from` is enabled, so the way back lands somewhere.
    let b = back->0;
    let pb = cycle_position(b)->0;
    assert(b == cycle_entry(pb));
    assert(settings.is_enabled(cycle_entry(pb)));
    // Nearest on the way there: nothing enabled strictly between.
    assert(steps_to(from, dir, j) <= steps_to(from, dir, pb));
    // Nearest on the way back: `from` is no closer than `b`.
    assert(steps_to(there, rev, pb) <= steps_to(there, rev, i));
    lemma_forward_distance(i, j);
    lemma_forward_distance(j, i);
    lemma_forward_distance(i, pb);
    lemma_forward_distance(pb, i);
    lemma_forward_distance(j, pb);
    lemma_forward_distance(pb, j);
}

/// The forward step count between two cycle positions, without the modulus.
proof fn lemma_forward_distance(a: int, b: int)
    requires
        0 <= a < 5,
        0 <= b < 5,
    ensures
        (b - a + 4) % 5 + 1 == (if b > a {
            b - a
        } else {
            b - a + 5
        }),
{
}

/// Each sketch's place in the cycle is its own toggle and nothing else;
/// the home picker and the reserved seam are never stops.
pub proof fn lemma_each_sketch_reads_its_own_toggle(settings: SketchCycleSettings)
    ensures
        settings.is_enabled(AppState::Line) == settings.enable_line,
        settings.is_enabled(AppState::Flame) == settings.enable_flame,
        settings.is_enabled(AppState::Dots) == settings.enable_dots,
        settings.is_enabled(AppState::Cymatics) == settings.enable_cymatics,
        settings.is_enabled(AppState::Radiance) == settings.enable_radiance,
        !settings.is_enabled(AppState::Home),
        !settings.is_enabled(AppState::Waves),
{
}

/// When the sketch one step along the cycle is enabled, the walk stops
/// there, whatever else is switched off.
pub proof fn lemma_enabled_neighbour_is_next(
    settings: SketchCycleSettings,
    from: AppState,
    dir: Direction,
    r: Option<AppState>,
)
    requires
        settings.is_enabled(
            match dir {
                Direction::Forward => unfiltered_next(from),
                Direction::Backward => unfiltered_prev(from),
            },
        ),
        settings.nearest_enabled(from, dir, r),
    ensures
        r == Some(
            match dir {
                Direction::Forward => unfiltered_next(from),
                Direction::Backward => unfiltered_prev(from),
            },
        ),
{
    lemma_steps_inverse(from, dir, 1);
    let p1 = position_after(from, dir, 1);
    assert(cycle_entry(p1) == match dir {
        Direction::Forward => unfiltered_next(from),
        Direction::Backward => unfiltered_prev(from),
    });
    assert(settings.is_enabled(cycle_entry(p1)));
    let s = r->0;
    let p = cycle_position(s)->0;
    assert(s == cycle_entry(p));
    assert(settings.is_enabled(cycle_entry(p)));
    lemma_steps_range(from, dir, p);
    assert(steps_to(from, dir, p) <= steps_to(from, dir, p1));
}

} // verus!
