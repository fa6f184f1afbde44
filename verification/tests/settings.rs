use waveconductor::body_tracking::{BodyTrackingSettings, CameraRotation};
use waveconductor::webcam::{resolve_index_by_name, AvailableCameraDevices, WebcamSettings, AUTO_LABEL};

#[test]
fn max_tracked_bodies_clamps_to_slot_range() {
    let clamp = |max_figures| {
        BodyTrackingSettings {
            max_figures,
            ..BodyTrackingSettings::default()
        }
        .max_tracked_bodies()
    };
    assert_eq!(clamp(0), 1);
    assert_eq!(clamp(99), 4);
    assert_eq!(clamp(2), 2);
}

#[test]
fn body_tracking_defaults_to_all_slots_upright() {
    let d = BodyTrackingSettings::default();
    assert_eq!(d.max_figures, 4);
    assert_eq!(d.max_tracked_bodies(), 4);
    assert_eq!(d.camera_rotation, CameraRotation::Upright);
    assert_eq!(CameraRotation::default(), CameraRotation::Upright);
    assert_eq!(BodyTrackingSettings { max_figures: i32::MIN, ..d }.max_tracked_bodies(), 1);
}

#[test]
fn rotation_degrees_round_trip() {
    for r in [CameraRotation::Upright, CameraRotation::Cw90, CameraRotation::Cw270] {
        assert_eq!(CameraRotation::from_degrees(r.to_degrees()), r);
    }
    assert_eq!(CameraRotation::Cw90.to_degrees(), 90);
    assert_eq!(CameraRotation::Cw270.to_degrees(), 270);
    assert_eq!(CameraRotation::from_degrees(180), CameraRotation::Upright);
    assert_eq!(CameraRotation::from_degrees(45), CameraRotation::Upright);
}

#[test]
fn rotation_swaps_dims_and_remaps_pixels() {
    assert_eq!(CameraRotation::Upright.rotated_dims(640, 480), (640, 480));
    assert_eq!(CameraRotation::Cw90.rotated_dims(640, 480), (480, 640));
    assert_eq!(CameraRotation::Cw270.rotated_dims(640, 480), (480, 640));
    // 4x2 source turned clockwise: destination (dx, dy) = (src_h-1-sy, sx).
    assert_eq!(CameraRotation::Cw90.source_pixel(0, 0, 4, 2), (0, 1));
    assert_eq!(CameraRotation::Cw90.source_pixel(1, 3, 4, 2), (3, 0));
    assert_eq!(CameraRotation::Cw270.source_pixel(0, 0, 4, 2), (3, 0));
    assert_eq!(CameraRotation::Cw270.source_pixel(1, 3, 4, 2), (0, 1));
    assert_eq!(CameraRotation::Upright.source_pixel(3, 1, 4, 2), (3, 1));
    // Degenerate frames saturate instead of underflowing.
    assert_eq!(CameraRotation::Cw90.source_pixel(5, 0, 4, 0), (0, 0));
    // Every rotated pixel lands on a distinct source pixel.
    for r in [CameraRotation::Cw90, CameraRotation::Cw270] {
        let (w, h) = r.rotated_dims(4, 2);
        let mut seen = std::collections::HashSet::new();
        for dy in 0..h {
            for dx in 0..w {
                let p = r.source_pixel(dx, dy, 4, 2);
                assert!(p.0 < 4 && p.1 < 2);
                assert!(seen.insert(p));
            }
        }
        assert_eq!(seen.len(), 8);
    }
}

#[test]
fn selected_treats_empty_and_auto_as_automatic() {
    let mut s = WebcamSettings::default();
    assert_eq!(s.selected(), None, "default is automatic");
    s.camera = "  ".to_string();
    assert_eq!(s.selected(), None, "whitespace is automatic");
    s.camera = AUTO_LABEL.to_string();
    assert_eq!(s.selected(), None, "the Automatic entry is automatic");
    s.camera = " OBSBOT Tiny 2 Lite ".to_string();
    assert_eq!(s.selected(), Some("OBSBOT Tiny 2 Lite"), "explicit, trimmed");
}

#[test]
fn selected_trims_unicode_whitespace_only() {
    let mut s = WebcamSettings::default();
    s.camera = "\u{3000}\t Automatic \u{a0}\n".to_string();
    assert_eq!(s.selected(), None);
    s.camera = "automatic".to_string();
    assert_eq!(s.selected(), Some("automatic"), "the automatic entry is matched exactly");
    s.camera = "\u{2003}Cam\u{200b}".to_string();
    assert_eq!(s.selected(), Some("Cam\u{200b}"), "zero-width space is not whitespace");
    for text in ["", " x ", "\u{85}y\u{2029}", "a b"] {
        s.camera = text.to_string();
        let t = text.trim();
        let expect = if t.is_empty() || t == AUTO_LABEL { None } else { Some(t) };
        assert_eq!(s.selected(), expect, "{text:?}");
    }
}

fn names(list: &[&str]) -> Vec<String> {
    list.iter().map(|s| (*s).to_string()).collect()
}

#[test]
fn resolve_index_matches_substring_or_falls_back() {
    let devices = names(&["FaceTime HD Camera", "OBSBOT Tiny 2 Lite"]);
    assert_eq!(resolve_index_by_name(&devices, Some("obsbot"), 0), 1);
    assert_eq!(
        resolve_index_by_name(&devices, Some("FaceTime HD Camera"), 5),
        0,
        "full dropdown name matches its own device"
    );
    assert_eq!(resolve_index_by_name(&devices, None, 3), 3, "automatic");
    assert_eq!(
        resolve_index_by_name(&devices, Some("Logitech"), 2),
        2,
        "unplugged/unmatched selection falls back rather than misopening"
    );
    assert_eq!(resolve_index_by_name(&[], Some("obsbot"), 0), 0);
}

#[test]
fn resolve_index_takes_the_first_match_and_folds_unicode_case() {
    let devices = names(&["Cam A", "ÉCRAN cam", "cam b"]);
    assert_eq!(resolve_index_by_name(&devices, Some("CAM"), 9), 0);
    assert_eq!(resolve_index_by_name(&devices, Some("écran"), 9), 1);
    assert_eq!(resolve_index_by_name(&devices, Some(""), 9), 0, "the empty name is in every name");
}

#[test]
fn device_list_is_headed_by_the_automatic_entry() {
    let mut list = AvailableCameraDevices(vec!["stale".to_string()]);
    list.refill(names(&["Cam 1", "Cam 2"]));
    assert_eq!(list.options(), &names(&["Automatic", "Cam 1", "Cam 2"])[..]);
}
