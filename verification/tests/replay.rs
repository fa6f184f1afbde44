use std::time::Duration;

use waveconductor::replay::{frames_due, parse_spec, parse_u32, replay_label, select_frames, ReplayFrameSource};

/// Spec parsing: bare dir defaults to 30 fps; `@fps` overrides; a
/// non-numeric `@` stays in the path; fps clamps into 1..=120.
#[test]
fn parse_spec_handles_fps_suffix() {
    assert_eq!(parse_spec("/tmp/frames"), ("/tmp/frames".to_string(), 30));
    assert_eq!(parse_spec("/tmp/frames@24"), ("/tmp/frames".to_string(), 24));
    assert_eq!(
        parse_spec("/tmp/odd@name"),
        ("/tmp/odd@name".to_string(), 30),
        "non-numeric suffix is part of the path"
    );
    assert_eq!(parse_spec("/tmp/f@0").1, 1, "fps floors at 1");
    assert_eq!(parse_spec("/tmp/f@999").1, 120, "fps caps at 120");
}

/// Frame 0 is due immediately; thereafter the count tracks elapsed*fps.
#[test]
fn frames_due_paces_at_fps() {
    assert_eq!(frames_due(Duration::ZERO.as_micros(), 30), 0);
    assert_eq!(frames_due(Duration::from_millis(34).as_micros(), 30), 1);
    assert_eq!(frames_due(Duration::from_secs(2).as_micros(), 30), 60);
    assert_eq!(frames_due(Duration::from_millis(999).as_micros(), 1), 0);
    assert_eq!(frames_due(Duration::from_secs(1).as_micros(), 1), 1);
}

#[test]
fn parse_spec_splits_at_the_last_at_sign() {
    assert_eq!(parse_spec("/a@b/c@15"), ("/a@b/c".to_string(), 15));
    assert_eq!(parse_spec("/a@15/c"), ("/a@15/c".to_string(), 30));
    assert_eq!(parse_spec("@60"), ("".to_string(), 60));
    assert_eq!(parse_spec("/f@+24"), ("/f".to_string(), 24));
    assert_eq!(parse_spec("/f@"), ("/f@".to_string(), 30));
    assert_eq!(parse_spec("/f@-5"), ("/f@-5".to_string(), 30));
    assert_eq!(parse_spec("/f@99999999999"), ("/f@99999999999".to_string(), 30));
}

#[test]
fn parse_u32_matches_from_str() {
    for text in ["0", "7", "+7", "4294967295", "4294967296", "", "+", "-1", "1a", " 1", "007"] {
        assert_eq!(parse_u32(text), text.parse::<u32>().ok(), "{text:?}");
    }
}

#[test]
fn frames_due_saturates() {
    assert_eq!(frames_due(u128::MAX, 120), (u128::MAX / 1_000_000).min(u64::MAX as u128) as u64);
    assert_eq!(frames_due(u128::MAX / 2, 1), u64::MAX);
    assert_eq!(frames_due(1_000_000, 0), 0);
}

#[test]
fn frames_are_selected_by_extension_and_sorted() {
    let names: Vec<String> = ["00002.png", "notes.txt", "00001.PNG", ".png", "00003.jpeg", "a.webp", "b.jpg", "c.gif", "noext"]
        .iter()
        .map(|s| s.to_string())
        .collect();
    let frames = select_frames(names);
    assert_eq!(frames, vec!["00001.PNG", "00002.png", "00003.jpeg", "a.webp", "b.jpg"]);
}

#[test]
fn replay_cursor_serves_in_order_and_loops() {
    let frames = vec!["a.png".to_string(), "b.png".to_string()];
    let label = replay_label(1, 1, 120, 2);
    assert_eq!(label, "replay 1x1 @120, 2 frames");
    let mut src = ReplayFrameSource::new(frames, 500, label).expect("non-empty");
    assert_eq!(src.format_label(), Some("replay 1x1 @120, 2 frames"));
    let mut served = Vec::new();
    for _ in 0..3 {
        served.push(src.next_path().to_string());
        src.advance();
    }
    assert_eq!(served, vec!["a.png", "b.png", "a.png"], "sorted order, then loop");
    // A discard shares the cursor.
    src.advance();
    assert_eq!(src.next_path(), "a.png");
    assert_eq!(src.cursor(), 0);
    assert_eq!(src.served(), 4, "every serve and discard counts");
}

#[test]
fn replay_pacing_gates_on_fps() {
    let src = ReplayFrameSource::new(vec!["a.png".to_string()], 0, String::new()).expect("frames");
    // fps 0 clamps to 1: frame 0 is due at once, frame 1 only after a second.
    assert!(src.due(0));
    let mut src = src;
    src.advance();
    assert!(!src.due(999_999));
    assert!(src.due(1_000_000));
}

#[test]
fn replay_with_no_frames_refuses_to_open() {
    assert!(ReplayFrameSource::new(Vec::new(), 30, String::new()).is_none());
}
