//! Operator body-tracking behaviour: how many people the tracker follows,
//! and the quarter-turn that stands a side-mounted camera's frames back up.

use vstd::prelude::*;

verus! {

/// Quarter-turn applied to every incoming camera frame before anything else
/// looks at it. `Upright` is the identity and the default.
#[derive(Clone, Copy, Debug, PartialEq, Eq, Structural)]
pub enum CameraRotation {
    /// Camera is upright; frames pass through untouched.
    Upright,
    /// Camera mounted rotated 90° counter-clockwise, so frames are turned
    /// 90° clockwise.
    Cw90,
    /// Camera mounted rotated 90° clockwise, so frames are turned 270°
    /// clockwise.
    Cw270,
}

impl Default for CameraRotation {
    /// An upright camera.
    fn default() -> (r: Self)
        ensures
            r == CameraRotation::Upright,
    {
        CameraRotation::Upright
    }
}

/// `a - b`, floored at zero (`saturating_sub` on naturals).
pub open spec fn sat_sub(a: int, b: int) -> int {
    if a > b {
        a - b
    } else {
        0
    }
}

/// The clockwise turn in degrees that encodes a rotation.
pub open spec fn degrees_of(r: CameraRotation) -> u32 {
    match r {
        CameraRotation::Upright => 0,
        CameraRotation::Cw90 => 90,
        CameraRotation::Cw270 => 270,
    }
}

impl CameraRotation {
    /// Frame dimensions after the turn: the quarter turns swap the axes.
    pub fn rotated_dims(self, w: u32, h: u32) -> (d: (u32, u32))
        ensures
            d == (match self {
                CameraRotation::Upright => (w, h),
                _ => (h, w),
            }),
    {
        match self {
            CameraRotation::Upright => (w, h),
            CameraRotation::Cw90 | CameraRotation::Cw270 => (h, w),
        }
    }

    /// Map a pixel of the rotated frame back to its source pixel;
    /// `src_w`/`src_h` are the unrotated frame's dimensions.
    pub fn source_pixel(self, dx: u32, dy: u32, src_w: u32, src_h: u32) -> (p: (u32, u32))
        ensures
            p == (match self {
                CameraRotation::Upright => (dx, dy),
                CameraRotation::Cw90 => (dy, sat_sub(sat_sub(src_h as int, 1), dx as int) as u32),
                CameraRotation::Cw270 => (sat_sub(sat_sub(src_w as int, 1), dy as int) as u32, dx),
            }),
    {
        match self {
            CameraRotation::Upright => (dx, dy),
            CameraRotation::Cw90 => (dy, src_h.saturating_sub(1).saturating_sub(dx)),
            CameraRotation::Cw270 => (src_w.saturating_sub(1).saturating_sub(dy), dx),
        }
    }

    /// Wire encoding: the clockwise turn in degrees.
    pub fn to_degrees(self) -> (d: u32)
        ensures
            d == degrees_of(self),
    {
        match self {
            CameraRotation::Upright => 0,
            CameraRotation::Cw90 => 90,
            CameraRotation::Cw270 => 270,
        }
    }

    /// Inverse of [`Self::to_degrees`]; any other value decodes to the
    /// identity rather than to a wrong turn.
    pub fn from_degrees(deg: u32) -> (r: Self)
        ensures
            r == (if deg == 90 {
                CameraRotation::Cw90
            } else if deg == 270 {
                CameraRotation::Cw270
            } else {
                CameraRotation::Upright
            }),
    {
        match deg {
            90 => CameraRotation::Cw90,
            270 => CameraRotation::Cw270,
            _ => CameraRotation::Upright,
        }
    }
}

/// Decoding the degrees a rotation encodes gives that rotation back, and a
/// degree value survives a round trip exactly when it is one of the three
/// encodings.
pub proof fn lemma_degrees_round_trip(r: CameraRotation, deg: u32)
    ensures
        (if degrees_of(r) == 90 {
            CameraRotation::Cw90
        } else if degrees_of(r) == 270 {
            CameraRotation::Cw270
        } else {
            CameraRotation::Upright
        }) == r,
        (deg == 0 || deg == 90 || deg == 270) <==> degrees_of(
            if deg == 90 {
                CameraRotation::Cw90
            } else if deg == 270 {
                CameraRotation::Cw270
            } else {
                CameraRotation::Upright
            },
        ) == deg,
{
}

/// The rotated frame is covered exactly once: every pixel of the rotated
/// frame maps inside the source frame, and distinct rotated pixels map to
/// distinct source pixels.
pub proof fn lemma_source_pixel_is_a_bijection_onto_the_frame(
    r: CameraRotation,
    src_w: u32,
    src_h: u32,
    ax: u32,
    ay: u32,
    bx: u32,
    by: u32,
)
    requires
        ({
            let (rw, rh) = match r {
                CameraRotation::Upright => (src_w, src_h),
                _ => (src_h, src_w),
            };
            ax < rw && ay < rh && bx < rw && by < rh
        }),
    ensures
        ({
            let pa = match r {
                CameraRotation::Upright => (ax, ay),
                CameraRotation::Cw90 => (ay, sat_sub(sat_sub(src_h as int, 1), ax as int) as u32),
                CameraRotation::Cw270 => (sat_sub(sat_sub(src_w as int, 1), ay as int) as u32, ax),
            };
            let pb = match r {
                CameraRotation::Upright => (bx, by),
                CameraRotation::Cw90 => (by, sat_sub(sat_sub(src_h as int, 1), bx as int) as u32),
                CameraRotation::Cw270 => (sat_sub(sat_sub(src_w as int, 1), by as int) as u32, bx),
            };
            &&& pa.0 < src_w && pa.1 < src_h
            &&& (pa == pb ==> ax == bx && ay == by)
        }),
{
}

/// Number of body slots the tracking pipeline has.
pub const MAX_TRACKED_BODIES: usize = 4;

/// How the body-tracking pipeline divides its attention between people.
#[derive(Clone, Copy, Debug, PartialEq, Eq, Structural)]
pub struct BodyTrackingSettings {
    /// Maximum people tracked as figures at once (valid range `1..=4`).
    pub max_figures: i32,
    /// Quarter-turn applied to every camera frame before tracking.
    pub camera_rotation: CameraRotation,
}

impl Default for BodyTrackingSettings {
    /// All slots, upright camera.
    fn default() -> (s: Self)
        ensures
            s.max_figures == 4,
            s.camera_rotation == CameraRotation::Upright,
    {
        BodyTrackingSettings { max_figures: 4, camera_rotation: CameraRotation::Upright }
    }
}

impl BodyTrackingSettings {
    /// The cap as the pipeline's `usize`, clamped to the valid slot range.
    pub fn max_tracked_bodies(&self) -> (n: usize)
        ensures
            n == (if self.max_figures < 1 {
                1
            } else if self.max_figures > 4 {
                4
            } else {
                self.max_figures as int
            }),
            1 <= n <= MAX_TRACKED_BODIES,
    {
        let clamped = if self.max_figures < 1 {
            1
        } else if self.max_figures > 4 {
            4
        } else {
            self.max_figures
        };
        clamped as usize
    }
}

} // verus!
