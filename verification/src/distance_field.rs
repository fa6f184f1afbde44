//! Silhouette distance field: a signed 3-4 chamfer distance transform of
//! the 256² person mask, packed into one byte plane around a `128` boundary
//! bias (above = outside the body, below = inside).
//!
//! The relaxation is the classic two-pass raster chamfer: a forward pass
//! (left, up-left, up, up-right neighbours) followed by a backward pass
//! (right, down-right, down, down-left). Its contract states the exact
//! result: every texel ends at the minimum, over all texels of the grid, of
//! that texel's seed plus the 3-4 chamfer metric between the two.

use vstd::prelude::*;

verus! {

/// Side of the square body mask, in texels.
pub const MASK_SIZE: usize = 256;

/// Texels in the mask (`MASK_SIZE²`).
pub const GRID_LEN: usize = 65536;

/// Channels per texel of the RGBA body mask (one body slot per channel).
pub const MASK_CHANNELS: usize = 4;

/// Mask coverage threshold for "inside the body".
pub const MASK_INSIDE_THRESHOLD: u8 = 128;

/// Distance in texels that maps to the full byte range on either side of
/// the signed encoding's boundary bias.
pub const DIST_MAX_TEXELS: u32 = 160;

/// Chamfer cost of an orthogonal step (the 3-4 chamfer: 3 per orthogonal
/// texel, 4 per diagonal one).
pub const ORTHO_COST: u32 = 3;

/// Chamfer cost of a diagonal step; see [`ORTHO_COST`].
pub const DIAG_COST: u32 = 4;

/// "Infinite" seed for texels with no body anywhere near.
pub const FAR: u32 = 2147483647;

/// Largest seed the relaxation accepts: a neighbour plus [`DIAG_COST`] must
/// still fit in a `u32`.
pub const MAX_SEED: u32 = 4294967291;

/// Flat row-major index of texel `(x, y)`.
pub open spec fn texel(x: int, y: int) -> int {
    y * 256 + x
}

/// Whether `(x, y)` lies in the mask grid.
pub open spec fn in_grid(x: int, y: int) -> bool {
    0 <= x < 256 && 0 <= y < 256
}

/// The 3-4 chamfer length of a displacement `(dx, dy)`: diagonal steps
/// (cost 4) along the shorter axis, orthogonal steps (cost 3) for the rest.
pub open spec fn chamfer_metric(dx: int, dy: int) -> int {
    let a = if dx < 0 { -dx } else { dx };
    let b = if dy < 0 { -dy } else { dy };
    if a <= b {
        3 * b + a
    } else {
        3 * a + b
    }
}

/// Value `v` at texel `(x, y)` is at most the seed of every texel plus the
/// chamfer length from it.
pub open spec fn below_every_source(seed: Seq<u32>, v: int, x: int, y: int) -> bool {
    forall|jx: int, jy: int|
        #![trigger seed[texel(jx, jy)]]
        in_grid(jx, jy) ==> v <= seed[texel(jx, jy)] + chamfer_metric(x - jx, y - jy)
}

/// Value `v` at texel `(x, y)` is at least the seed of some texel plus the
/// chamfer length from it.
#[verifier::opaque]
pub open spec fn reached_from_a_source(seed: Seq<u32>, v: int, x: int, y: int) -> bool {
    exists|jx: int, jy: int|
        #![trigger seed[texel(jx, jy)]]
        in_grid(jx, jy) && v >= seed[texel(jx, jy)] + chamfer_metric(x - jx, y - jy)
}

/// `out` is the chamfer distance transform of `seed`: at every texel, the
/// minimum over all texels `j` of `seed[j] + chamfer_metric(texel − j)`.
pub open spec fn is_chamfer_transform(seed: Seq<u32>, out: Seq<u32>) -> bool {
    &&& seed.len() == GRID_LEN
    &&& out.len() == GRID_LEN
    &&& forall|x: int, y: int|
        #![trigger out[texel(x, y)]]
        in_grid(x, y) ==> {
            &&& below_every_source(seed, out[texel(x, y)] as int, x, y)
            &&& reached_from_a_source(seed, out[texel(x, y)] as int, x, y)
        }
}

/// Every entry of `s` is at most `bound`.
pub open spec fn all_at_most(s: Seq<u32>, bound: int) -> bool {
    forall|i: int| 0 <= i < s.len() ==> #[trigger] s[i] <= bound
}

/// The unsigned byte encoding of a raw chamfer value: `texels / 160 · 255`
/// truncated, saturating at 255 (`raw / 3` texels).
pub open spec fn unsigned_code(raw: int) -> int {
    if raw * 255 / 480 > 255 {
        255
    } else {
        raw * 255 / 480
    }
}

/// The signed byte encoding: exterior distance (raw units) above the `128`
/// bias when the texel is outside the body, interior distance below it
/// otherwise, one `127 / 160` scale per texel, clamped into `0..=255`.
pub open spec fn signed_code(raw_out: int, raw_in: int) -> int {
    if raw_out > 0 {
        if (61440 + 127 * raw_out) / 480 > 255 {
            255
        } else {
            (61440 + 127 * raw_out) / 480
        }
    } else if 61440 - 127 * raw_in < 0 {
        0
    } else {
        (61440 - 127 * raw_in) / 480
    }
}

/// The seed a single-channel mask value gives the exterior transform.
pub open spec fn outside_seed(m: u8) -> u32 {
    if m >= 128 {
        0
    } else {
        FAR
    }
}

/// The seed a single-channel mask value gives the interior transform.
pub open spec fn inside_seed(m: u8) -> u32 {
    if m >= 128 {
        FAR
    } else {
        0
    }
}

/// Whether texel `t` of an RGBA mask is inside any tracked body.
pub open spec fn rgba_inside(mask: Seq<u8>, t: int) -> bool {
    exists|c: int| 0 <= c < 4 && #[trigger] mask[4 * t + c] >= 128
}

// ---------------------------------------------------------------------------
// Local consistency after each pass.

/// Texel `(x, y)` is no larger than any of its forward-pass neighbours
/// (left, up-left, up, up-right) plus the step cost.
pub open spec fn forward_consistent(s: Seq<u32>, x: int, y: int) -> bool {
    &&& x > 0 ==> s[texel(x, y)] <= s[texel(x - 1, y)] + 3
    &&& y > 0 ==> s[texel(x, y)] <= s[texel(x, y - 1)] + 3
    &&& (y > 0 && x > 0) ==> s[texel(x, y)] <= s[texel(x - 1, y - 1)] + 4
    &&& (y > 0 && x < 255) ==> s[texel(x, y)] <= s[texel(x + 1, y - 1)] + 4
}

/// Texel `(x, y)` is no larger than any of its backward-pass neighbours
/// (right, down-right, down, down-left) plus the step cost.
pub open spec fn backward_consistent(s: Seq<u32>, x: int, y: int) -> bool {
    &&& x < 255 ==> s[texel(x, y)] <= s[texel(x + 1, y)] + 3
    &&& y < 255 ==> s[texel(x, y)] <= s[texel(x, y + 1)] + 3
    &&& (y < 255 && x < 255) ==> s[texel(x, y)] <= s[texel(x + 1, y + 1)] + 4
    &&& (y < 255 && x > 0) ==> s[texel(x, y)] <= s[texel(x - 1, y + 1)] + 4
}

/// One step of the chamfer metric: moving the far end of a displacement by
/// one orthogonal texel costs at most 3, by one diagonal texel at most 4.
proof fn lemma_metric_step(dx: int, dy: int, sx: int, sy: int)
    requires
        -1 <= sx <= 1,
        -1 <= sy <= 1,
    ensures
        chamfer_metric(dx + sx, dy + sy) <= chamfer_metric(dx, dy) + (if sx != 0 && sy != 0 {
            4int
        } else if sx != 0 || sy != 0 {
            3int
        } else {
            0int
        }),
{
}

/// A value reached from a source at a neighbour, plus the step cost, is
/// reached from the same source here.
proof fn lemma_reached_step(seed: Seq<u32>, v: int, nx: int, ny: int, x: int, y: int, c: int)
    requires
        reached_from_a_source(seed, v, nx, ny),
        -1 <= x - nx <= 1,
        -1 <= y - ny <= 1,
        (x - nx != 0 && y - ny != 0) ==> c == 4,
        (x - nx == 0 || y - ny == 0) ==> c == 3,
    ensures
        reached_from_a_source(seed, v + c, x, y),
{
    reveal(reached_from_a_source);
    let (jx, jy) = choose|jx: int, jy: int|
        #![trigger seed[texel(jx, jy)]]
        in_grid(jx, jy) && v >= seed[texel(jx, jy)] + chamfer_metric(nx - jx, ny - jy);
    lemma_metric_step(nx - jx, ny - jy, x - nx, y - ny);
    assert(in_grid(jx, jy) && v + c >= seed[texel(jx, jy)] + chamfer_metric(x - jx, y - jy));
}

// ---------------------------------------------------------------------------
// The two raster passes.

/// The loop invariant of a pass over `s`, relative to the pass's input `s0`.
pub open spec fn pass_frame(s0: Seq<u32>, s: Seq<u32>, seed: Seq<u32>) -> bool {
    &&& s.len() == GRID_LEN
    &&& s0.len() == GRID_LEN
    &&& seed.len() == GRID_LEN
    &&& all_at_most(s0, MAX_SEED as int)
    &&& forall|i: int| 0 <= i < GRID_LEN ==> #[trigger] s[i] <= s0[i]
    &&& forall|px: int, py: int|
        #![trigger s[texel(px, py)]]
        in_grid(px, py) ==> reached_from_a_source(seed, s[texel(px, py)] as int, px, py)
}

/// Replacing texel `(x, y)` by a no-larger value reached from a source keeps
/// the pass invariant.
proof fn lemma_frame_update(s0: Seq<u32>, before: Seq<u32>, seed: Seq<u32>, x: int, y: int, v: u32)
    requires
        pass_frame(s0, before, seed),
        in_grid(x, y),
        v <= before[texel(x, y)],
        reached_from_a_source(seed, v as int, x, y),
    ensures
        pass_frame(s0, before.update(texel(x, y), v), seed),
{
    let after = before.update(texel(x, y), v);
    assert forall|px: int, py: int|
        #![trigger after[texel(px, py)]]
        in_grid(px, py) implies reached_from_a_source(seed, after[texel(px, py)] as int, px, py) by {
        if texel(px, py) != texel(x, y) {
            assert(after[texel(px, py)] == before[texel(px, py)]);
        }
    }
    assert forall|i: int| 0 <= i < GRID_LEN implies #[trigger] after[i] <= s0[i] by {
        assert(before[i] <= s0[i]);
    }
}

/// The forward relaxation value of texel `(x, y)`: its own value, lowered to
/// any cheaper forward neighbour plus the step cost (seeds at 0 stay put).
fn forward_min(scratch: &[u32], x: usize, y: usize, Ghost(s0): Ghost<Seq<u32>>, Ghost(seed): Ghost<Seq<u32>>) -> (d: u32)
    requires
        x < 256,
        y < 256,
        pass_frame(s0, scratch@, seed),
    ensures
        d <= scratch@[texel(x as int, y as int)],
        reached_from_a_source(seed, d as int, x as int, y as int),
        forward_consistent(scratch@.update(texel(x as int, y as int), d), x as int, y as int),
{
    let i = y * MASK_SIZE + x;
    let ghost s = scratch@;
    let ghost xi = x as int;
    let ghost yi = y as int;
    assert(texel(xi, yi) == i);
    let mut d = scratch[i];
    assert(reached_from_a_source(seed, d as int, xi, yi));
    if d != 0 {
        if x > 0 {
            assert(texel(xi - 1, yi) == i - 1);
            assert(s[i - 1] <= s0[i - 1]);
            let c = scratch[i - 1] + ORTHO_COST;
            proof {
                lemma_reached_step(seed, s[texel(xi - 1, yi)] as int, xi - 1, yi, xi, yi, 3);
            }
            if c < d {
                d = c;
            }
        }
        if y > 0 {
            let up = i - MASK_SIZE;
            assert(texel(xi, yi - 1) == up);
            assert(s[up as int] <= s0[up as int]);
            let c = scratch[up] + ORTHO_COST;
            proof {
                lemma_reached_step(seed, s[texel(xi, yi - 1)] as int, xi, yi - 1, xi, yi, 3);
            }
            if c < d {
                d = c;
            }
            if x > 0 {
                assert(texel(xi - 1, yi - 1) == up - 1);
                assert(s[up - 1] <= s0[up - 1]);
                let c = scratch[up - 1] + DIAG_COST;
                proof {
                    lemma_reached_step(seed, s[texel(xi - 1, yi - 1)] as int, xi - 1, yi - 1, xi, yi, 4);
                }
                if c < d {
                    d = c;
                }
            }
            if x + 1 < MASK_SIZE {
                assert(texel(xi + 1, yi - 1) == up + 1);
                assert(s[up + 1] <= s0[up + 1]);
                let c = scratch[up + 1] + DIAG_COST;
                proof {
                    lemma_reached_step(seed, s[texel(xi + 1, yi - 1)] as int, xi + 1, yi - 1, xi, yi, 4);
                }
                if c < d {
                    d = c;
                }
            }
        }
    }
    d
}

/// The backward relaxation value of texel `(x, y)`: its own value, lowered
/// to any cheaper backward neighbour plus the step cost.
fn backward_min(scratch: &[u32], x: usize, y: usize, Ghost(s0): Ghost<Seq<u32>>, Ghost(seed): Ghost<Seq<u32>>) -> (d: u32)
    requires
        x < 256,
        y < 256,
        pass_frame(s0, scratch@, seed),
    ensures
        d <= scratch@[texel(x as int, y as int)],
        reached_from_a_source(seed, d as int, x as int, y as int),
        backward_consistent(scratch@.update(texel(x as int, y as int), d), x as int, y as int),
{
    let i = y * MASK_SIZE + x;
    let ghost s = scratch@;
    let ghost xi = x as int;
    let ghost yi = y as int;
    assert(texel(xi, yi) == i);
    let mut d = scratch[i];
    assert(reached_from_a_source(seed, d as int, xi, yi));
    if d != 0 {
        if x + 1 < MASK_SIZE {
            assert(texel(xi + 1, yi) == i + 1);
            assert(s[i + 1] <= s0[i + 1]);
            let c = scratch[i + 1] + ORTHO_COST;
            proof {
                lemma_reached_step(seed, s[texel(xi + 1, yi)] as int, xi + 1, yi, xi, yi, 3);
            }
            if c < d {
                d = c;
            }
        }
        if y + 1 < MASK_SIZE {
            let down = i + MASK_SIZE;
            assert(texel(xi, yi + 1) == down);
            assert(s[down as int] <= s0[down as int]);
            let c = scratch[down] + ORTHO_COST;
            proof {
                lemma_reached_step(seed, s[texel(xi, yi + 1)] as int, xi, yi + 1, xi, yi, 3);
            }
            if c < d {
                d = c;
            }
            if x > 0 {
                assert(texel(xi - 1, yi + 1) == down - 1);
                assert(s[down - 1] <= s0[down - 1]);
                let c = scratch[down - 1] + DIAG_COST;
                proof {
                    lemma_reached_step(seed, s[texel(xi - 1, yi + 1)] as int, xi - 1, yi + 1, xi, yi, 4);
                }
                if c < d {
                    d = c;
                }
            }
            if x + 1 < MASK_SIZE {
                assert(texel(xi + 1, yi + 1) == down + 1);
                assert(s[down + 1] <= s0[down + 1]);
                let c = scratch[down + 1] + DIAG_COST;
                proof {
                    lemma_reached_step(seed, s[texel(xi + 1, yi + 1)] as int, xi + 1, yi + 1, xi, yi, 4);
                }
                if c < d {
                    d = c;
                }
            }
        }
    }
    d
}

/// Relax texel `(x, y)` toward its forward-pass neighbours.
fn forward_texel(scratch: &mut [u32], x: usize, y: usize, Ghost(s0): Ghost<Seq<u32>>, Ghost(seed): Ghost<Seq<u32>>)
    requires
        x < 256,
        y < 256,
        pass_frame(s0, old(scratch)@, seed),
    ensures
        pass_frame(s0, final(scratch)@, seed),
        final(scratch)@ == old(scratch)@.update(texel(x as int, y as int), final(scratch)@[texel(x as int, y as int)]),
        forward_consistent(final(scratch)@, x as int, y as int),
{
    let d = forward_min(scratch, x, y, Ghost(s0), Ghost(seed));
    proof {
        lemma_frame_update(s0, scratch@, seed, x as int, y as int, d);
    }
    let i = y * MASK_SIZE + x;
    scratch[i] = d;
}

/// Relax texel `(x, y)` toward its backward-pass neighbours.
fn backward_texel(scratch: &mut [u32], x: usize, y: usize, Ghost(s0): Ghost<Seq<u32>>, Ghost(seed): Ghost<Seq<u32>>)
    requires
        x < 256,
        y < 256,
        pass_frame(s0, old(scratch)@, seed),
    ensures
        pass_frame(s0, final(scratch)@, seed),
        final(scratch)@ == old(scratch)@.update(texel(x as int, y as int), final(scratch)@[texel(x as int, y as int)]),
        backward_consistent(final(scratch)@, x as int, y as int),
{
    let d = backward_min(scratch, x, y, Ghost(s0), Ghost(seed));
    proof {
        lemma_frame_update(s0, scratch@, seed, x as int, y as int, d);
    }
    let i = y * MASK_SIZE + x;
    scratch[i] = d;
}

/// Updating texel `(x, y)` keeps the forward consistency of every texel
/// scanned before it.
proof fn lemma_forward_kept(before: Seq<u32>, after: Seq<u32>, x: int, y: int)
    requires
        in_grid(x, y),
        before.len() == GRID_LEN,
        after == before.update(texel(x, y), after[texel(x, y)]),
        forward_consistent(after, x, y),
        forall|px: int, py: int|
            #![trigger forward_consistent(before, px, py)]
            (0 <= px < 256 && 0 <= py < y) || (0 <= px < x && py == y)
                ==> forward_consistent(before, px, py),
    ensures
        forall|px: int, py: int|
            #![trigger forward_consistent(after, px, py)]
            (0 <= px < 256 && 0 <= py < y) || (0 <= px < x + 1 && py == y)
                ==> forward_consistent(after, px, py),
{
    assert forall|px: int, py: int|
        #![trigger forward_consistent(after, px, py)]
        (0 <= px < 256 && 0 <= py < y) || (0 <= px < x + 1 && py == y)
            implies forward_consistent(after, px, py) by {
        if px != x || py != y {
            assert(forward_consistent(before, px, py));
        }
    }
}

/// Updating texel `(x, y)` keeps the backward consistency of every texel
/// scanned before it (in reverse order).
proof fn lemma_backward_kept(before: Seq<u32>, after: Seq<u32>, x: int, y: int)
    requires
        in_grid(x, y),
        before.len() == GRID_LEN,
        after == before.update(texel(x, y), after[texel(x, y)]),
        backward_consistent(after, x, y),
        forall|px: int, py: int|
            #![trigger backward_consistent(before, px, py)]
            (0 <= px < 256 && y < py < 256) || (x < px < 256 && py == y)
                ==> backward_consistent(before, px, py),
    ensures
        forall|px: int, py: int|
            #![trigger backward_consistent(after, px, py)]
            (0 <= px < 256 && y < py < 256) || (x <= px < 256 && py == y)
                ==> backward_consistent(after, px, py),
{
    assert forall|px: int, py: int|
        #![trigger backward_consistent(after, px, py)]
        (0 <= px < 256 && y < py < 256) || (x <= px < 256 && py == y)
            implies backward_consistent(after, px, py) by {
        if px != x || py != y {
            assert(backward_consistent(before, px, py));
        }
    }
}

/// Forward pass, row-major: each non-seed texel relaxes toward its left,
/// up-left, up and up-right neighbours.
fn relax_forward(scratch: &mut [u32], Ghost(seed): Ghost<Seq<u32>>)
    requires
        pass_frame(old(scratch)@, old(scratch)@, seed),
    ensures
        pass_frame(old(scratch)@, final(scratch)@, seed),
        forall|x: int, y: int|
            #![trigger forward_consistent(final(scratch)@, x, y)]
            in_grid(x, y) ==> forward_consistent(final(scratch)@, x, y),
{
    let ghost s0 = scratch@;
    let mut y: usize = 0;
    while y < MASK_SIZE
        invariant
            y <= 256,
            pass_frame(s0, scratch@, seed),
            forall|px: int, py: int|
                #![trigger forward_consistent(scratch@, px, py)]
                0 <= px < 256 && 0 <= py < y ==> forward_consistent(scratch@, px, py),
        decreases 256 - y,
    {
        let mut x: usize = 0;
        while x < MASK_SIZE
            invariant
                y < 256,
                x <= 256,
                pass_frame(s0, scratch@, seed),
                forall|px: int, py: int|
                    #![trigger forward_consistent(scratch@, px, py)]
                    (0 <= px < 256 && 0 <= py < y) || (0 <= px < x && py == y)
                        ==> forward_consistent(scratch@, px, py),
            decreases 256 - x,
        {
            let ghost before = scratch@;
            forward_texel(scratch, x, y, Ghost(s0), Ghost(seed));
            proof {
                lemma_forward_kept(before, scratch@, x as int, y as int);
            }
            x = x + 1;
        }
        y = y + 1;
    }
}

/// Backward pass, reverse row-major: each non-seed texel relaxes toward its
/// right, down-right, down and down-left neighbours.
fn relax_backward(scratch: &mut [u32], Ghost(seed): Ghost<Seq<u32>>)
    requires
        pass_frame(old(scratch)@, old(scratch)@, seed),
    ensures
        pass_frame(old(scratch)@, final(scratch)@, seed),
        forall|x: int, y: int|
            #![trigger backward_consistent(final(scratch)@, x, y)]
            in_grid(x, y) ==> backward_consistent(final(scratch)@, x, y),
{
    let ghost s0 = scratch@;
    let mut y: usize = MASK_SIZE;
    while y > 0
        invariant
            y <= 256,
            pass_frame(s0, scratch@, seed),
            forall|px: int, py: int|
                #![trigger backward_consistent(scratch@, px, py)]
                0 <= px < 256 && y <= py < 256 ==> backward_consistent(scratch@, px, py),
        decreases y,
    {
        y = y - 1;
        let mut x: usize = MASK_SIZE;
        while x > 0
            invariant
                y < 256,
                x <= 256,
                pass_frame(s0, scratch@, seed),
                forall|px: int, py: int|
                    #![trigger backward_consistent(scratch@, px, py)]
                    (0 <= px < 256 && y < py < 256) || (x <= px < 256 && py == y)
                        ==> backward_consistent(scratch@, px, py),
            decreases x,
        {
            x = x - 1;
            let ghost before = scratch@;
            backward_texel(scratch, x, y, Ghost(s0), Ghost(seed));
            proof {
                lemma_backward_kept(before, scratch@, x as int, y as int);
            }
        }
    }
}

// ---------------------------------------------------------------------------
// From local consistency to exactness.

/// After the forward pass, a texel is at most any texel above it (or to its
/// left on the same row) plus the chamfer length, when the cheapest route
/// only moves right, down, or diagonally down.
proof fn lemma_forward_reach(f: Seq<u32>, jx: int, jy: int, kx: int, ky: int)
    requires
        f.len() == GRID_LEN,
        forall|x: int, y: int|
            #![trigger forward_consistent(f, x, y)]
            in_grid(x, y) ==> forward_consistent(f, x, y),
        in_grid(jx, jy),
        in_grid(kx, ky),
        ky >= jy,
        kx >= jx || jx - kx <= ky - jy,
    ensures
        f[texel(kx, ky)] <= f[texel(jx, jy)] + chamfer_metric(kx - jx, ky - jy),
    decreases texel(kx, ky) - texel(jx, jy),
{
    if kx == jx && ky == jy {
    } else if ky == jy {
        assert(forward_consistent(f, kx, ky));
        lemma_forward_reach(f, jx, jy, kx - 1, ky);
    } else if kx > jx {
        assert(forward_consistent(f, kx, ky));
        lemma_forward_reach(f, jx, jy, kx - 1, ky - 1);
    } else if kx == jx || jx - kx < ky - jy {
        assert(forward_consistent(f, kx, ky));
        lemma_forward_reach(f, jx, jy, kx, ky - 1);
    } else {
        assert(forward_consistent(f, kx, ky));
        lemma_forward_reach(f, jx, jy, kx + 1, ky - 1);
    }
}

/// After the backward pass, a texel is at most any texel below it (or to
/// its right on the same row) plus the chamfer length, when the cheapest
/// route only moves left, up, or diagonally up.
proof fn lemma_backward_reach(b: Seq<u32>, ix: int, iy: int, kx: int, ky: int)
    requires
        b.len() == GRID_LEN,
        forall|x: int, y: int|
            #![trigger backward_consistent(b, x, y)]
            in_grid(x, y) ==> backward_consistent(b, x, y),
        in_grid(ix, iy),
        in_grid(kx, ky),
        iy <= ky,
        ix <= kx || ix - kx <= ky - iy,
    ensures
        b[texel(ix, iy)] <= b[texel(kx, ky)] + chamfer_metric(ix - kx, iy - ky),
    decreases texel(kx, ky) - texel(ix, iy),
{
    if ix == kx && iy == ky {
    } else if iy == ky {
        assert(backward_consistent(b, ix, iy));
        lemma_backward_reach(b, ix + 1, iy, kx, ky);
    } else if ix < kx {
        assert(backward_consistent(b, ix, iy));
        lemma_backward_reach(b, ix + 1, iy + 1, kx, ky);
    } else if ix == kx || ix - kx < ky - iy {
        assert(backward_consistent(b, ix, iy));
        lemma_backward_reach(b, ix, iy + 1, kx, ky);
    } else {
        assert(backward_consistent(b, ix, iy));
        lemma_backward_reach(b, ix - 1, iy + 1, kx, ky);
    }
}

/// The two passes together bound every texel by every source: the cheapest
/// route from a source splits into a forward-pass leg followed by a
/// backward-pass leg, each inside the grid.
proof fn lemma_two_pass_bound(
    seed: Seq<u32>,
    f: Seq<u32>,
    b: Seq<u32>,
    x: int,
    y: int,
    jx: int,
    jy: int,
)
    requires
        seed.len() == GRID_LEN,
        f.len() == GRID_LEN,
        b.len() == GRID_LEN,
        forall|i: int| 0 <= i < GRID_LEN ==> #[trigger] f[i] <= seed[i],
        forall|i: int| 0 <= i < GRID_LEN ==> #[trigger] b[i] <= f[i],
        forall|px: int, py: int|
            #![trigger forward_consistent(f, px, py)]
            in_grid(px, py) ==> forward_consistent(f, px, py),
        forall|px: int, py: int|
            #![trigger backward_consistent(b, px, py)]
            in_grid(px, py) ==> backward_consistent(b, px, py),
        in_grid(x, y),
        in_grid(jx, jy),
    ensures
        b[texel(x, y)] <= seed[texel(jx, jy)] + chamfer_metric(x - jx, y - jy),
{
    let dx = x - jx;
    let dy = y - jy;
    // The hand-over texel between the two legs.
    let (kx, ky) = if dy >= 0 && dx >= -dy {
        (x, y)
    } else if dy >= 0 {
        (jx - dy, y)
    } else if dx >= -dy {
        (x + dy, jy)
    } else {
        (jx, jy)
    };
    lemma_forward_reach(f, jx, jy, kx, ky);
    lemma_backward_reach(b, x, y, kx, ky);
    assert(b[texel(kx, ky)] <= f[texel(kx, ky)]);
    assert(f[texel(jx, jy)] <= seed[texel(jx, jy)]);
    assert(chamfer_metric(x - kx, y - ky) + chamfer_metric(kx - jx, ky - jy) == chamfer_metric(dx, dy));
}

/// Every texel's own seed reaches it (at chamfer length 0).
proof fn lemma_reached_self(seed: Seq<u32>)
    requires
        seed.len() == GRID_LEN,
    ensures
        forall|x: int, y: int|
            #![trigger seed[texel(x, y)]]
            in_grid(x, y) ==> reached_from_a_source(seed, seed[texel(x, y)] as int, x, y),
{
    reveal(reached_from_a_source);
    assert forall|x: int, y: int|
        #![trigger seed[texel(x, y)]]
        in_grid(x, y) implies reached_from_a_source(seed, seed[texel(x, y)] as int, x, y) by {
        assert(in_grid(x, y) && seed[texel(x, y)] >= seed[texel(x, y)] + chamfer_metric(x - x, y - y));
    }
}

/// The forward + backward 3-4 chamfer relaxation passes in place: every
/// texel ends at its chamfer distance (raw units, 3 per orthogonal step) to
/// the nearest seeded texel, seed values included.
fn chamfer_relax(scratch: &mut [u32])
    requires
        old(scratch)@.len() == GRID_LEN,
        all_at_most(old(scratch)@, MAX_SEED as int),
    ensures
        is_chamfer_transform(old(scratch)@, final(scratch)@),
{
    let ghost seed = scratch@;
    proof {
        lemma_reached_self(seed);
        assert forall|px: int, py: int|
            #![trigger seed[texel(px, py)]]
            in_grid(px, py) implies reached_from_a_source(seed, seed[texel(px, py)] as int, px, py) by {
        }
    }
    assert(pass_frame(seed, seed, seed));
    relax_forward(scratch, Ghost(seed));
    let ghost f = scratch@;
    assert forall|i: int| 0 <= i < GRID_LEN implies #[trigger] f[i] <= MAX_SEED by {
        assert(f[i] <= seed[i]);
    }
    assert(pass_frame(f, f, seed));
    relax_backward(scratch, Ghost(seed));
    let ghost b = scratch@;
    proof {
        assert forall|x: int, y: int|
            #![trigger b[texel(x, y)]]
            in_grid(x, y) implies {
                &&& below_every_source(seed, b[texel(x, y)] as int, x, y)
                &&& reached_from_a_source(seed, b[texel(x, y)] as int, x, y)
            } by {
            assert forall|jx: int, jy: int|
                #![trigger seed[texel(jx, jy)]]
                in_grid(jx, jy) implies b[texel(x, y)] <= seed[texel(jx, jy)] + chamfer_metric(x - jx, y - jy) by {
                lemma_two_pass_bound(seed, f, b, x, y, jx, jy);
            }
        }
    }
}

// ---------------------------------------------------------------------------
// Byte encodings and the public transforms.

/// The unsigned byte for one raw chamfer value (see [`unsigned_code`]).
fn unsigned_byte(raw: u32) -> (b: u8)
    ensures
        b == unsigned_code(raw as int),
{
    let v: u64 = (raw as u64) * 255 / 480;
    if v > 255 {
        255
    } else {
        v as u8
    }
}

/// The signed byte for one texel's exterior / interior raw chamfer values
/// (see [`signed_code`]).
fn signed_byte(raw_out: u32, raw_in: u32) -> (b: u8)
    ensures
        b == signed_code(raw_out as int, raw_in as int),
{
    if raw_out > 0 {
        let v: u64 = (61440 + 127 * (raw_out as u64)) / 480;
        if v > 255 {
            255
        } else {
            v as u8
        }
    } else {
        let down: u64 = 127 * (raw_in as u64);
        if down > 61440 {
            0
        } else {
            ((61440 - down) / 480) as u8
        }
    }
}

/// The chamfer relaxation over an already-seeded scratch, then the legacy
/// unsigned encoding: `out[i]` is the distance in texels scaled so that
/// [`DIST_MAX_TEXELS`] maps to 255, truncated and saturating at 255.
pub fn chamfer_from_seeded(scratch: &mut [u32], out: &mut [u8])
    requires
        old(scratch)@.len() == GRID_LEN,
        old(out)@.len() == GRID_LEN,
        all_at_most(old(scratch)@, MAX_SEED as int),
    ensures
        is_chamfer_transform(old(scratch)@, final(scratch)@),
        final(out)@.len() == GRID_LEN,
        forall|i: int|
            0 <= i < GRID_LEN ==> #[trigger] final(out)@[i] as int == unsigned_code(
                final(scratch)@[i] as int,
            ),
{
    chamfer_relax(scratch);
    let mut i: usize = 0;
    while i < GRID_LEN
        invariant
            i <= GRID_LEN,
            scratch@.len() == GRID_LEN,
            out@.len() == GRID_LEN,
            forall|k: int| 0 <= k < i ==> #[trigger] out@[k] as int == unsigned_code(scratch@[k] as int),
        decreases GRID_LEN - i,
    {
        let b = unsigned_byte(scratch[i]);
        out[i] = b;
        i = i + 1;
    }
}

/// Two-pass 3-4 chamfer distance transform of a single-channel mask: texels
/// at or above [`MASK_INSIDE_THRESHOLD`] are the body (distance 0), every
/// other texel starts at [`FAR`]; `out` holds the unsigned encoding.
pub fn chamfer_distance(mask: &[u8], scratch: &mut [u32], out: &mut [u8])
    requires
        mask@.len() == GRID_LEN,
        old(scratch)@.len() == GRID_LEN,
        old(out)@.len() == GRID_LEN,
    ensures
        is_chamfer_transform(
            Seq::new(GRID_LEN as nat, |i: int| outside_seed(mask@[i])),
            final(scratch)@,
        ),
        final(out)@.len() == GRID_LEN,
        forall|i: int|
            0 <= i < GRID_LEN ==> #[trigger] final(out)@[i] as int == unsigned_code(
                final(scratch)@[i] as int,
            ),
{
    let mut i: usize = 0;
    while i < GRID_LEN
        invariant
            i <= GRID_LEN,
            mask@.len() == GRID_LEN,
            scratch@.len() == GRID_LEN,
            forall|k: int| 0 <= k < i ==> #[trigger] scratch@[k] == outside_seed(mask@[k]),
        decreases GRID_LEN - i,
    {
        scratch[i] = if mask[i] >= MASK_INSIDE_THRESHOLD {
            0
        } else {
            FAR
        };
        i = i + 1;
    }
    assert(scratch@ =~= Seq::new(GRID_LEN as nat, |i: int| outside_seed(mask@[i])));
    chamfer_from_seeded(scratch, out);
}

/// Relax both seeded scratches (exterior: body = 0; interior: complement =
/// 0) and pack them into the signed byte field around the `128` bias.
pub fn signed_chamfer(scratch_out: &mut [u32], scratch_in: &mut [u32], out: &mut [u8])
    requires
        old(scratch_out)@.len() == GRID_LEN,
        old(scratch_in)@.len() == GRID_LEN,
        old(out)@.len() == GRID_LEN,
        all_at_most(old(scratch_out)@, MAX_SEED as int),
        all_at_most(old(scratch_in)@, MAX_SEED as int),
    ensures
        is_chamfer_transform(old(scratch_out)@, final(scratch_out)@),
        is_chamfer_transform(old(scratch_in)@, final(scratch_in)@),
        final(out)@.len() == GRID_LEN,
        forall|i: int|
            0 <= i < GRID_LEN ==> #[trigger] final(out)@[i] as int == signed_code(
                final(scratch_out)@[i] as int,
                final(scratch_in)@[i] as int,
            ),
{
    chamfer_relax(scratch_out);
    chamfer_relax(scratch_in);
    let mut i: usize = 0;
    while i < GRID_LEN
        invariant
            i <= GRID_LEN,
            scratch_out@.len() == GRID_LEN,
            scratch_in@.len() == GRID_LEN,
            out@.len() == GRID_LEN,
            forall|k: int|
                0 <= k < i ==> #[trigger] out@[k] as int == signed_code(
                    scratch_out@[k] as int,
                    scratch_in@[k] as int,
                ),
        decreases GRID_LEN - i,
    {
        let b = signed_byte(scratch_out[i], scratch_in[i]);
        out[i] = b;
        i = i + 1;
    }
}

/// Seed both scratches from a single-channel mask (body =
/// `>= MASK_INSIDE_THRESHOLD`, interior scratch inverted) and run
/// [`signed_chamfer`].
pub fn signed_chamfer_from_mask(
    mask: &[u8],
    scratch_out: &mut [u32],
    scratch_in: &mut [u32],
    out: &mut [u8],
)
    requires
        mask@.len() == GRID_LEN,
        old(scratch_out)@.len() == GRID_LEN,
        old(scratch_in)@.len() == GRID_LEN,
        old(out)@.len() == GRID_LEN,
    ensures
        is_chamfer_transform(
            Seq::new(GRID_LEN as nat, |i: int| outside_seed(mask@[i])),
            final(scratch_out)@,
        ),
        is_chamfer_transform(
            Seq::new(GRID_LEN as nat, |i: int| inside_seed(mask@[i])),
            final(scratch_in)@,
        ),
        final(out)@.len() == GRID_LEN,
        forall|i: int|
            0 <= i < GRID_LEN ==> #[trigger] final(out)@[i] as int == signed_code(
                final(scratch_out)@[i] as int,
                final(scratch_in)@[i] as int,
            ),
{
    let mut i: usize = 0;
    while i < GRID_LEN
        invariant
            i <= GRID_LEN,
            mask@.len() == GRID_LEN,
            scratch_out@.len() == GRID_LEN,
            scratch_in@.len() == GRID_LEN,
            forall|k: int| 0 <= k < i ==> #[trigger] scratch_out@[k] == outside_seed(mask@[k]),
            forall|k: int| 0 <= k < i ==> #[trigger] scratch_in@[k] == inside_seed(mask@[k]),
        decreases GRID_LEN - i,
    {
        let inside = mask[i] >= MASK_INSIDE_THRESHOLD;
        scratch_out[i] = if inside {
            0
        } else {
            FAR
        };
        scratch_in[i] = if inside {
            FAR
        } else {
            0
        };
        i = i + 1;
    }
    assert(scratch_out@ =~= Seq::new(GRID_LEN as nat, |i: int| outside_seed(mask@[i])));
    assert(scratch_in@ =~= Seq::new(GRID_LEN as nat, |i: int| inside_seed(mask@[i])));
    signed_chamfer(scratch_out, scratch_in, out);
}

// ---------------------------------------------------------------------------
// The per-sketch field resource.

/// The exterior seed a texel of an RGBA mask gives: body (any channel at or
/// above the threshold) = 0, else [`FAR`].
pub open spec fn rgba_outside_seed(mask: Seq<u8>, t: int) -> u32 {
    if rgba_inside(mask, t) {
        0
    } else {
        FAR
    }
}

/// The interior seed a texel of an RGBA mask gives (the complement).
pub open spec fn rgba_inside_seed(mask: Seq<u8>, t: int) -> u32 {
    if rgba_inside(mask, t) {
        FAR
    } else {
        0
    }
}

/// Seeds taken from an RGBA mask: the first `mask.len() / 4` texels are
/// seeded from the mask (through `seed_of`), the rest keep `prev`.
pub open spec fn seeded_from(prev: Seq<u32>, mask: Seq<u8>, outside: bool) -> Seq<u32> {
    Seq::new(
        GRID_LEN as nat,
        |t: int|
            if t < mask.len() / 4 {
                if outside {
                    rgba_outside_seed(mask, t)
                } else {
                    rgba_inside_seed(mask, t)
                }
            } else {
                prev[t]
            },
    )
}

/// Owns the packed signed-field bytes and the two chamfer scratches.
pub struct RadianceDistanceField {
    /// The packed signed field (`MASK_SIZE²` bytes; `128` = boundary, above
    /// = outside the body, below = inside).
    pub signed: Vec<u8>,
    /// Recompute counter; bumps (wrapping) once per recompute.
    pub generation: u64,
    /// Exterior-chamfer scratch (body = 0 seed).
    scratch: Vec<u32>,
    /// Interior-chamfer scratch (complement seed).
    scratch_in: Vec<u32>,
    /// Last silhouette generation the field was computed for (`u64::MAX` =
    /// never computed).
    last_generation: u64,
}

impl Default for RadianceDistanceField {
    /// Same as [`RadianceDistanceField::new`].
    fn default() -> (field: Self)
        ensures
            field.wf(),
            field.signed_plane() == Seq::new(GRID_LEN as nat, |i: int| 0u8),
            field.recomputes() == 0,
            field.last_seen() == u64::MAX,
    {
        RadianceDistanceField::new()
    }
}

impl RadianceDistanceField {
    /// The packed signed field's bytes.
    pub closed spec fn signed_plane(&self) -> Seq<u8> {
        self.signed@
    }

    /// The recompute counter.
    pub closed spec fn recomputes(&self) -> u64 {
        self.generation
    }

    /// The exterior scratch's contents.
    pub closed spec fn exterior(&self) -> Seq<u32> {
        self.scratch@
    }

    /// The interior scratch's contents.
    pub closed spec fn interior(&self) -> Seq<u32> {
        self.scratch_in@
    }

    /// The silhouette generation the field was last computed for.
    pub closed spec fn last_seen(&self) -> u64 {
        self.last_generation
    }

    /// All three planes hold `MASK_SIZE²` entries and the scratches hold no
    /// value above [`FAR`].
    pub closed spec fn wf(&self) -> bool {
        &&& self.signed@.len() == GRID_LEN
        &&& self.scratch@.len() == GRID_LEN
        &&& self.scratch_in@.len() == GRID_LEN
        &&& all_at_most(self.scratch@, FAR as int)
        &&& all_at_most(self.scratch_in@, FAR as int)
    }

    /// Zeroed field and scratch; the first body frame computes the real
    /// field.
    pub fn new() -> (field: Self)
        ensures
            field.wf(),
            field.signed_plane() == Seq::new(GRID_LEN as nat, |i: int| 0u8),
            field.recomputes() == 0,
            field.last_seen() == u64::MAX,
    {
        let signed: Vec<u8> = vec![0; GRID_LEN];
        let scratch: Vec<u32> = vec![0; GRID_LEN];
        let scratch_in: Vec<u32> = vec![0; GRID_LEN];
        assert(signed@ =~= Seq::new(GRID_LEN as nat, |i: int| 0u8));
        RadianceDistanceField {
            signed,
            generation: 0,
            scratch,
            scratch_in,
            last_generation: u64::MAX,
        }
    }

    /// Recompute the signed field when a new silhouette generation has
    /// arrived: remember the generation, and when the RGBA mask (one body
    /// slot per channel) is available, seed "inside" from the union of its
    /// channels, relax both transforms, repack `signed`, and bump
    /// `generation`.
    pub fn update(&mut self, edges_generation: u64, mask: Option<&[u8]>)
        requires
            old(self).wf(),
        ensures
            final(self).wf(),
            edges_generation == old(self).last_seen() ==> *final(self) == *old(self),
            edges_generation != old(self).last_seen() ==> final(self).last_seen() == edges_generation,
            edges_generation != old(self).last_seen() && mask is None ==> {
                &&& final(self).signed_plane() == old(self).signed_plane()
                &&& final(self).recomputes() == old(self).recomputes()
                &&& final(self).exterior() == old(self).exterior()
                &&& final(self).interior() == old(self).interior()
            },
            edges_generation != old(self).last_seen() && mask is Some ==> {
                let m = mask->0@;
                &&& is_chamfer_transform(
                    seeded_from(old(self).exterior(), m, true),
                    final(self).exterior(),
                )
                &&& is_chamfer_transform(
                    seeded_from(old(self).interior(), m, false),
                    final(self).interior(),
                )
                &&& forall|i: int|
                    0 <= i < GRID_LEN ==> #[trigger] final(self).signed_plane()[i] as int == signed_code(
                        final(self).exterior()[i] as int,
                        final(self).interior()[i] as int,
                    )
                &&& final(self).recomputes() == (if old(self).recomputes() == u64::MAX {
                    0
                } else {
                    old(self).recomputes() + 1
                })
            },
    {
        if edges_generation == self.last_generation {
            return;
        }
        self.last_generation = edges_generation;
        let mask_data = match mask {
            Some(m) => m,
            None => {
                return;
            },
        };
        let texels = mask_data.len() / MASK_CHANNELS;
        let ghost prev_out = self.scratch@;
        let ghost prev_in = self.scratch_in@;
        let mut t: usize = 0;
        while t < GRID_LEN
            invariant
                t <= GRID_LEN,
                texels == mask_data@.len() / 4,
                self.signed@.len() == GRID_LEN,
                self.last_generation == edges_generation,
                self.generation == old(self).generation,
                self.scratch@.len() == GRID_LEN,
                self.scratch_in@.len() == GRID_LEN,
                prev_out.len() == GRID_LEN,
                prev_in.len() == GRID_LEN,
                all_at_most(prev_out, FAR as int),
                all_at_most(prev_in, FAR as int),
                forall|k: int|
                    0 <= k < t ==> #[trigger] self.scratch@[k] == seeded_from(prev_out, mask_data@, true)[k],
                forall|k: int|
                    0 <= k < t ==> #[trigger] self.scratch_in@[k] == seeded_from(prev_in, mask_data@, false)[k],
                forall|k: int| t <= k < GRID_LEN ==> #[trigger] self.scratch@[k] == prev_out[k],
                forall|k: int| t <= k < GRID_LEN ==> #[trigger] self.scratch_in@[k] == prev_in[k],
            decreases GRID_LEN - t,
        {
            if t < texels {
                let base = t * MASK_CHANNELS;
                let inside = mask_data[base] >= MASK_INSIDE_THRESHOLD
                    || mask_data[base + 1] >= MASK_INSIDE_THRESHOLD
                    || mask_data[base + 2] >= MASK_INSIDE_THRESHOLD
                    || mask_data[base + 3] >= MASK_INSIDE_THRESHOLD;
                proof {
                    let ti = t as int;
                    if inside {
                        if mask_data@[4 * ti] >= 128 {
                            assert(mask_data@[4 * ti + 0] >= 128);
                        }
                        assert(rgba_inside(mask_data@, ti));
                    } else {
                        assert forall|c: int| 0 <= c < 4 implies !(#[trigger] mask_data@[4 * ti + c] >= 128) by {
                            if c == 0 {
                                assert(4 * ti + c == base);
                            }
                        }
                        assert(!rgba_inside(mask_data@, ti));
                    }
                }
                self.scratch.set(t, if inside { 0 } else { FAR });
                self.scratch_in.set(t, if inside { FAR } else { 0 });
            }
            t = t + 1;
        }
        proof {
            assert(self.scratch@ =~= seeded_from(prev_out, mask_data@, true));
            assert(self.scratch_in@ =~= seeded_from(prev_in, mask_data@, false));
            assert forall|i: int| 0 <= i < self.scratch@.len() implies #[trigger] self.scratch@[i] <= MAX_SEED by {
                assert(prev_out[i] <= FAR);
            }
            assert forall|i: int| 0 <= i < self.scratch_in@.len() implies #[trigger] self.scratch_in@[i] <= MAX_SEED by {
                assert(prev_in[i] <= FAR);
            }
        }
        let ghost seeded_out = self.scratch@;
        let ghost seeded_in = self.scratch_in@;
        signed_chamfer(self.scratch.as_mut_slice(), self.scratch_in.as_mut_slice(), self.signed.as_mut_slice());
        proof {
            assert forall|i: int| 0 <= i < GRID_LEN implies #[trigger] self.scratch@[i] <= FAR by {
                lemma_transform_at_most(seeded_out, self.scratch@, i);
            }
            assert forall|i: int| 0 <= i < GRID_LEN implies #[trigger] self.scratch_in@[i] <= FAR by {
                lemma_transform_at_most(seeded_in, self.scratch_in@, i);
            }
        }
        self.generation = self.generation.wrapping_add(1);
    }
}

/// A transform never exceeds its own seed at a texel.
proof fn lemma_transform_at_most(seed: Seq<u32>, out: Seq<u32>, i: int)
    requires
        is_chamfer_transform(seed, out),
        0 <= i < GRID_LEN,
    ensures
        out[i] <= seed[i],
{
    let x = i % 256;
    let y = i / 256;
    assert(texel(x, y) == i);
    assert(in_grid(x, y));
    assert(below_every_source(seed, out[texel(x, y)] as int, x, y));
    assert(seed[texel(x, y)] + chamfer_metric(x - x, y - y) == seed[i]);
}

// ---------------------------------------------------------------------------
// Laws of the transform.

/// A texel is at distance 0 exactly when it is itself a zero seed (a body
/// texel of the exterior transform): no other texel is within chamfer
/// length 0.
pub proof fn lemma_zero_exactly_on_seeds(seed: Seq<u32>, out: Seq<u32>, x: int, y: int)
    requires
        is_chamfer_transform(seed, out),
        in_grid(x, y),
    ensures
        out[texel(x, y)] == 0 <==> seed[texel(x, y)] == 0,
{
    reveal(reached_from_a_source);
    assert(below_every_source(seed, out[texel(x, y)] as int, x, y));
    assert(out[texel(x, y)] <= seed[texel(x, y)] + chamfer_metric(x - x, y - y));
    if out[texel(x, y)] == 0 {
        assert(reached_from_a_source(seed, out[texel(x, y)] as int, x, y));
        let (jx, jy) = choose|jx: int, jy: int|
            #![trigger seed[texel(jx, jy)]]
            in_grid(jx, jy) && out[texel(x, y)] >= seed[texel(jx, jy)] + chamfer_metric(x - jx, y - jy);
        assert(jx == x && jy == y);
    }
}

/// With no source anywhere (every seed at least [`FAR`]), the field stays
/// at least [`FAR`] everywhere and its unsigned encoding saturates at 255.
pub proof fn lemma_no_source_saturates(seed: Seq<u32>, out: Seq<u32>, x: int, y: int)
    requires
        is_chamfer_transform(seed, out),
        in_grid(x, y),
        forall|i: int| 0 <= i < GRID_LEN ==> #[trigger] seed[i] >= FAR,
    ensures
        out[texel(x, y)] >= FAR,
        unsigned_code(out[texel(x, y)] as int) == 255,
{
    reveal(reached_from_a_source);
    assert(reached_from_a_source(seed, out[texel(x, y)] as int, x, y));
    let (jx, jy) = choose|jx: int, jy: int|
        #![trigger seed[texel(jx, jy)]]
        in_grid(jx, jy) && out[texel(x, y)] >= seed[texel(jx, jy)] + chamfer_metric(x - jx, y - jy);
    assert(seed[texel(jx, jy)] >= FAR);
}

/// The signed encoding keeps the body below the `128` boundary bias and
/// the outside at or above it.
pub proof fn lemma_signed_code_sides(raw_out: int, raw_in: int)
    requires
        raw_out >= 0,
        raw_in >= 0,
    ensures
        raw_out > 0 ==> signed_code(raw_out, raw_in) >= 128,
        raw_out == 0 && raw_in > 0 ==> signed_code(raw_out, raw_in) < 128,
{
}

/// The signed encoding puts a texel's chamfer distance `d = raw / 3`
/// texels on a `127 / DIST_MAX_TEXELS` scale around the `128` bias,
/// truncated: outside the body `128 + ⌊127·d / 160⌋`, saturating at 255
/// exactly from [`DIST_MAX_TEXELS`] texels on; inside `⌊128 − 127·d / 160⌋`,
/// clamped at 0.
pub proof fn lemma_signed_code_scale(raw_out: int, raw_in: int)
    requires
        raw_out >= 0,
        raw_in >= 0,
    ensures
        raw_out > 0 ==> signed_code(raw_out, raw_in) == (if raw_out >= 3 * DIST_MAX_TEXELS {
            255
        } else {
            128 + (127 * raw_out) / (3 * DIST_MAX_TEXELS as int)
        }),
        0 < raw_out < 3 * DIST_MAX_TEXELS ==> signed_code(raw_out, raw_in) < 255,
        raw_out == 0 ==> signed_code(raw_out, raw_in) == (if 127 * raw_in >= 128 * (3
            * DIST_MAX_TEXELS) {
            0
        } else {
            128 - (127 * raw_in + 3 * DIST_MAX_TEXELS - 1) / (3 * DIST_MAX_TEXELS as int)
        }),
{
    assert((61440 + 127 * raw_out) / 480 == 128 + (127 * raw_out) / 480) by {
        let v = 127 * raw_out;
        vstd::arithmetic::div_mod::lemma_fundamental_div_mod(v, 480);
        vstd::arithmetic::div_mod::lemma_fundamental_div_mod(61440 + v, 480);
        assert((61440 + v) / 480 == 128 + v / 480) by (nonlinear_arith)
            requires
                0 <= v,
                v == 480 * (v / 480) + v % 480,
                0 <= v % 480 < 480,
                61440 + v == 480 * ((61440 + v) / 480) + (61440 + v) % 480,
                0 <= (61440 + v) % 480 < 480,
        ;
    }
    assert(raw_out < 480 ==> (127 * raw_out) / 480 < 127) by {
        if raw_out < 480 {
            vstd::arithmetic::div_mod::lemma_div_is_ordered(127 * raw_out, 127 * 480int - 1, 480);
        }
    }
    assert(raw_out >= 480 ==> (127 * raw_out) / 480 >= 127) by {
        if raw_out >= 480 {
            vstd::arithmetic::div_mod::lemma_div_is_ordered(127 * 480int, 127 * raw_out, 480);
        }
    }
    if raw_out == 0 && 127 * raw_in < 61440 {
        let v = 127 * raw_in;
        let q = (v + 479) / 480;
        vstd::arithmetic::div_mod::lemma_fundamental_div_mod(v + 479, 480);
        vstd::arithmetic::div_mod::lemma_fundamental_div_mod(61440 - v, 480);
        assert((61440 - v) / 480 == 128 - q) by (nonlinear_arith)
            requires
                0 <= v < 61440,
                v + 479 == 480 * q + (v + 479) % 480,
                0 <= (v + 479) % 480 < 480,
                61440 - v == 480 * ((61440 - v) / 480) + (61440 - v) % 480,
                0 <= (61440 - v) % 480 < 480,
        ;
    }
}

} // verus!
