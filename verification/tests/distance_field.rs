use waveconductor::distance_field::{
    chamfer_distance, chamfer_from_seeded, signed_chamfer, signed_chamfer_from_mask, RadianceDistanceField,
    DIST_MAX_TEXELS, FAR, GRID_LEN, MASK_SIZE,
};
use waveconductor::field_upload::ExtractedField;

fn expect_unsigned(texels: f32) -> f32 {
    texels / DIST_MAX_TEXELS as f32 * 255.0
}

/// A single body texel: distance grows outward and is exact along the axes.
#[test]
fn chamfer_distances_grow_from_a_point() {
    let mut mask = vec![0_u8; MASK_SIZE * MASK_SIZE];
    let cx = 128;
    let cy = 128;
    mask[cy * MASK_SIZE + cx] = 255;
    let mut scratch = vec![0_u32; MASK_SIZE * MASK_SIZE];
    let mut out = vec![0_u8; MASK_SIZE * MASK_SIZE];
    chamfer_distance(&mask, &mut scratch, &mut out);

    assert_eq!(out[cy * MASK_SIZE + cx], 0, "body texel is distance 0");
    let d16 = f32::from(out[cy * MASK_SIZE + cx + 16]);
    let expect = expect_unsigned(16.0);
    assert!((d16 - expect).abs() <= 2.0, "axis distance ~exact: {d16} vs {expect}");
    let d32 = f32::from(out[cy * MASK_SIZE + cx + 32]);
    assert!(d32 > d16, "farther texel reads farther");
    let ddiag = f32::from(out[(cy + 16) * MASK_SIZE + cx + 16]);
    let ratio = ddiag / d16;
    assert!((1.25..=1.45).contains(&ratio), "diagonal/ortho ratio ~1.33: {ratio}");
}

/// An empty mask saturates the whole field at 255.
#[test]
fn empty_mask_saturates() {
    let mask = vec![0_u8; MASK_SIZE * MASK_SIZE];
    let mut scratch = vec![0_u32; MASK_SIZE * MASK_SIZE];
    let mut out = vec![0_u8; MASK_SIZE * MASK_SIZE];
    chamfer_distance(&mask, &mut scratch, &mut out);
    assert!(out.iter().all(|&d| d == 255), "no body -> field saturated");
}

fn half_plane() -> Vec<u8> {
    let mut mask = vec![0_u8; MASK_SIZE * MASK_SIZE];
    for y in 0..128 {
        for x in 0..MASK_SIZE {
            mask[y * MASK_SIZE + x] = 255;
        }
    }
    mask
}

/// A filled half-plane: distance equals the row gap to the boundary.
#[test]
fn half_plane_distance_is_row_gap() {
    let mask = half_plane();
    let mut scratch = vec![0_u32; MASK_SIZE * MASK_SIZE];
    let mut out = vec![0_u8; MASK_SIZE * MASK_SIZE];
    chamfer_distance(&mask, &mut scratch, &mut out);
    let d10 = f32::from(out[(127 + 10) * MASK_SIZE + 64]);
    let expect = expect_unsigned(10.0);
    assert!((d10 - expect).abs() <= 2.0, "{d10} vs {expect}");
}

#[test]
fn signed_field_is_biased_at_128() {
    let mask = half_plane();
    let mut s_out = vec![0_u32; MASK_SIZE * MASK_SIZE];
    let mut s_in = vec![0_u32; MASK_SIZE * MASK_SIZE];
    let mut out = vec![0_u8; MASK_SIZE * MASK_SIZE];
    signed_chamfer_from_mask(&mask, &mut s_out, &mut s_in, &mut out);

    let outside10 = f32::from(out[(127 + 10) * MASK_SIZE + 64]);
    let expect_out = 128.0 + 10.0 / DIST_MAX_TEXELS as f32 * 127.0;
    assert!((outside10 - expect_out).abs() <= 2.0, "{outside10} vs {expect_out}");
    let inside10 = f32::from(out[(127 - 10) * MASK_SIZE + 64]);
    let expect_in = 128.0 - 10.0 / DIST_MAX_TEXELS as f32 * 127.0;
    assert!((inside10 - expect_in).abs() <= 2.0, "{inside10} vs {expect_in}");
}

#[test]
fn signed_field_interior_gradient_points_at_the_boundary() {
    let mask = half_plane();
    let mut s_out = vec![0_u32; MASK_SIZE * MASK_SIZE];
    let mut s_in = vec![0_u32; MASK_SIZE * MASK_SIZE];
    let mut out = vec![0_u8; MASK_SIZE * MASK_SIZE];
    signed_chamfer_from_mask(&mask, &mut s_out, &mut s_in, &mut out);
    assert!(out[40 * MASK_SIZE + 64] < out[120 * MASK_SIZE + 64]);
}

/// Brute force over a few seeds: the relaxation equals the minimum over
/// seeds of the 3-4 chamfer metric.
#[test]
fn relaxation_equals_brute_force_minimum() {
    let seeds = [(3usize, 5usize), (200, 17), (90, 250), (255, 0)];
    let mut scratch = vec![FAR; GRID_LEN];
    for &(x, y) in &seeds {
        scratch[y * MASK_SIZE + x] = 0;
    }
    let mut out = vec![0_u8; GRID_LEN];
    chamfer_from_seeded(&mut scratch, &mut out);
    for y in 0..MASK_SIZE {
        for x in 0..MASK_SIZE {
            let best = seeds
                .iter()
                .map(|&(sx, sy)| {
                    let a = x.abs_diff(sx) as u32;
                    let b = y.abs_diff(sy) as u32;
                    if a <= b { 3 * b + a } else { 3 * a + b }
                })
                .min()
                .unwrap();
            assert_eq!(scratch[y * MASK_SIZE + x], best, "({x},{y})");
            assert_eq!(out[y * MASK_SIZE + x] as u32, (best * 255 / 480).min(255));
        }
    }
}

#[test]
fn signed_encoding_exact_values() {
    let mut s_out = vec![0_u32; GRID_LEN];
    let mut s_in = vec![FAR; GRID_LEN];
    // A single outside texel at the origin; everything else is body.
    s_out[0] = FAR;
    s_in[0] = 0;
    let mut out = vec![0_u8; GRID_LEN];
    signed_chamfer(&mut s_out, &mut s_in, &mut out);
    assert_eq!(s_out[0], 3);
    assert_eq!(out[0], ((61440 + 127 * 3) / 480) as u8);
    assert_eq!(out[1], ((61440 - 127 * 3) / 480) as u8);
    // Deep interior saturates at 0.
    assert_eq!(s_in[GRID_LEN - 1], 4 * 255);
    assert_eq!(out[GRID_LEN - 1], 0);
}

#[test]
fn field_update_is_generation_gated_and_unions_channels() {
    let mut field = RadianceDistanceField::new();
    assert_eq!(field.generation, 0);
    assert!(field.signed.iter().all(|&b| b == 0));
    let mut mask = vec![0_u8; GRID_LEN * 4];
    // Body only in the alpha channel of texel (10, 10).
    mask[(10 * MASK_SIZE + 10) * 4 + 3] = 200;
    field.update(7, Some(&mask));
    assert_eq!(field.generation, 1);
    assert!(field.signed[10 * MASK_SIZE + 10] < 128, "body texel sits below the bias");
    assert!(field.signed[10 * MASK_SIZE + 12] > 128, "outside sits above the bias");
    let snapshot = field.signed.clone();
    // Same silhouette generation: nothing recomputes.
    field.update(7, Some(&vec![0_u8; GRID_LEN * 4]));
    assert_eq!(field.generation, 1);
    assert_eq!(field.signed, snapshot);
    // New generation without a mask: remembered, nothing recomputed.
    field.update(8, None);
    assert_eq!(field.generation, 1);
    // The mask arriving for that generation no longer triggers.
    field.update(8, Some(&mask));
    assert_eq!(field.generation, 1);
    field.update(9, Some(&vec![0_u8; GRID_LEN * 4]));
    assert_eq!(field.generation, 2);
    assert!(field.signed.iter().all(|&b| b == 255), "empty mask saturates outside");
}

#[test]
fn extracted_field_default_is_clean_sentinel() {
    let f = ExtractedField::default();
    assert_eq!(f.generation, u64::MAX);
    assert!(f.bytes.is_empty());
    assert!(f.bytes.capacity() >= MASK_SIZE * MASK_SIZE);
    assert!(!f.dirty);
}

#[test]
fn extract_copies_once_per_generation_and_uploads_once() {
    let mut f = ExtractedField::default();
    let signed = vec![7_u8; GRID_LEN + 10];
    f.extract(0, &signed);
    assert_eq!(f.generation, 0);
    assert_eq!(f.bytes.len(), GRID_LEN, "truncated to the mask size");
    assert!(f.dirty);
    assert!(f.take_upload());
    assert!(!f.dirty);
    assert!(!f.take_upload(), "nothing pending after the upload");
    f.extract(0, &[1, 2, 3]);
    assert_eq!(f.bytes.len(), GRID_LEN, "same generation: no copy");
    f.extract(1, &[]);
    assert!(f.dirty);
    assert!(!f.take_upload(), "an empty copy is not written");
    assert!(!f.dirty);
}

#[test]
fn default_field_is_a_fresh_zero_plane() {
    let field = RadianceDistanceField::default();
    assert_eq!(field.generation, 0);
    assert_eq!(field.signed.len(), GRID_LEN);
    assert!(field.signed.iter().all(|&b| b == 0));
}
