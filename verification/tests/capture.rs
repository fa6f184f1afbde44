use waveconductor::capture::{
    build_wc_capture, check_window, debug_env_pairs, fmt_size, merge_debug, requested_window, resolution_env,
    window_json, Args, DebugTable, Scenario, WindowCheck, DEFAULT_WINDOW,
};

fn table(pairs: &[(&str, &str)]) -> DebugTable {
    let mut t = DebugTable::new();
    for (k, v) in pairs {
        t.insert(k.to_string(), v.to_string());
    }
    t
}

fn scenario() -> Scenario {
    Scenario {
        sketch: "line".into(),
        provider: "synthetic".into(),
        config: "clean".into(),
        debug: table(&[("FORCE_G", "8000")]),
        frames: vec![30, 60],
        resolution: None,
    }
}

/// The scenario's pinned frame delta, rendered as the app renders it.
fn dt_text() -> String {
    format!("{}", 0.016_666_667_f64)
}

#[test]
fn resolution_env_is_absent_by_default() {
    assert_eq!(resolution_env(&scenario()), None);
}

#[test]
fn resolution_env_formats_wxh() {
    let mut s = scenario();
    s.resolution = Some([1080, 1920]);
    assert_eq!(resolution_env(&s).as_deref(), Some("1080x1920"));
}

#[test]
fn builds_wc_capture_string() {
    let s = scenario();
    let dt = dt_text();
    let wc = build_wc_capture("line-synthetic", &s, "target/capture/x", Some(&dt), Some("abc1234"));
    assert!(wc.starts_with("dir=target/capture/x;frames=30,60"));
    assert!(wc.contains("dt=0.016666667"));
    assert!(wc.contains("scenario=line-synthetic"));
    assert!(wc.contains("commit=abc1234"));
}

#[test]
fn wc_capture_omits_commit_when_absent() {
    let s = scenario();
    let dt = dt_text();
    let wc = build_wc_capture("line-synthetic", &s, "out", Some(&dt), None);
    assert!(wc.contains("scenario=line-synthetic"));
    assert!(!wc.contains("commit="));
}

#[test]
fn wc_capture_exact_layout() {
    let mut s = scenario();
    s.frames = vec![5];
    assert_eq!(build_wc_capture("n", &s, "d", None, None), "dir=d;frames=5;scenario=n");
    s.frames = vec![];
    assert_eq!(build_wc_capture("n", &s, "d", Some("0.5"), Some("c")), "dir=d;frames=;dt=0.5;scenario=n;commit=c");
}

#[test]
fn cli_debug_overrides_merge_over_scenario() {
    let s = scenario();
    let overrides = vec!["FORCE_G=4000".to_string(), "DISABLE_SMEAR=1".to_string()];
    let merged = merge_debug(&s, &overrides);
    assert_eq!(merged.get("FORCE_G").map(String::as_str), Some("4000")); // overridden
    assert_eq!(merged.get("DISABLE_SMEAR").map(String::as_str), Some("1")); // added
}

#[test]
fn merge_trims_ignores_bare_words_and_last_wins() {
    let s = scenario();
    let overrides = vec![
        " A = 1 ".to_string(),
        "NOEQUALS".to_string(),
        "A=2".to_string(),
        "B=x=y".to_string(),
    ];
    let merged = merge_debug(&s, &overrides);
    assert_eq!(merged.get("A").map(String::as_str), Some("2"));
    assert_eq!(merged.get("B").map(String::as_str), Some("x=y"));
    assert_eq!(merged.get("NOEQUALS"), None);
    assert_eq!(merged.get("FORCE_G").map(String::as_str), Some("8000"));
    assert_eq!(merged.len(), 3);
}

#[test]
fn env_pairs_prefix_wc_debug() {
    let merged = table(&[("FORCE_G", "8000")]);
    let pairs = debug_env_pairs(&merged);
    assert!(pairs.contains(&("WC_DEBUG_FORCE_G".to_string(), "8000".to_string())));
}

#[test]
fn env_pairs_follow_ascending_key_order() {
    let merged = table(&[("ZED", "1"), ("ALPHA", "2"), ("MID", "3"), ("ALPHA", "4")]);
    let pairs = debug_env_pairs(&merged);
    let keys: Vec<&str> = pairs.iter().map(|(k, _)| k.as_str()).collect();
    assert_eq!(keys, vec!["WC_DEBUG_ALPHA", "WC_DEBUG_MID", "WC_DEBUG_ZED"]);
    assert_eq!(pairs[0].1, "4");
}

#[test]
fn requested_window_falls_back_to_the_app_default() {
    assert_eq!(requested_window(&scenario()), DEFAULT_WINDOW);
    let mut s = scenario();
    s.resolution = Some([1080, 1920]);
    assert_eq!(requested_window(&s), (1080, 1920));
}

#[test]
fn args_carry_the_cli_flags() {
    let a = Args {
        scenario: Some("x".into()),
        update_baselines: false,
        allow_black: false,
        json: true,
        watch: Some(10),
        list: false,
        debug: vec!["A=1".into()],
    };
    assert_eq!(a.watch, Some(10));
    assert!(a.json);
}

#[test]
fn window_json_surfaces_the_verdict_as_a_field() {
    let check = WindowCheck {
        requested: (1080, 1920),
        captured: (2160, 1976),
        frame: 60,
        aspect_ok: false,
    };
    let json = window_json(Some(&check));
    assert!(json.contains("\"requested\":[1080,1920]"), "{json}");
    assert!(json.contains("\"captured\":[2160,1976]"), "{json}");
    assert!(json.contains("\"requested_aspect\":0.5625"), "{json}");
    assert!(json.contains("\"aspect_ok\":false"), "{json}");
    assert!(json.contains("\"frame\":60"), "{json}");
    assert_eq!(window_json(None), "null");
}

#[test]
fn window_json_spells_out_every_field() {
    let check = WindowCheck {
        requested: (1280, 720),
        captured: (2560, 0),
        frame: 0,
        aspect_ok: true,
    };
    assert_eq!(
        window_json(Some(&check)),
        "{\"requested\":[1280,720],\"requested_aspect\":1.7778,\"captured\":[2560,0],\
         \"captured_aspect\":null,\"frame\":0,\"aspect_tolerance\":0.0100,\"aspect_ok\":true}"
    );
}

#[test]
fn fmt_size_prints_the_aspect_like_four_place_float_formatting() {
    assert_eq!(fmt_size((1080, 1920)), "1080x1920 (aspect 0.5625)");
    assert_eq!(fmt_size((2160, 1976)), "2160x1976 (aspect 1.0931)");
    assert_eq!(fmt_size((640, 0)), "640x0 (aspect n/a)");
    assert_eq!(fmt_size((0, 480)), "0x480 (aspect 0.0000)");
    // The same text the `f64` quotient prints with four places, ties included.
    for &(w, h) in &[(1_u32, 32_u32), (3, 32), (5, 32), (1280, 720), (4_000_000_000, 7), (7, 3), (1, 3)] {
        let expected = format!("{w}x{h} (aspect {:.4})", f64::from(w) / f64::from(h));
        assert_eq!(fmt_size((w, h)), expected);
    }
}

// The aspect verdicts below are what the 1% aspect comparison gives: a 2x
// capture of 1080x1920 keeps the aspect; 2160x1976 does not.

#[test]
fn check_window_passes_an_honest_2x_portrait_capture() {
    let mut s = scenario();
    s.resolution = Some([1080, 1920]);
    let frames = [(30, (2160, 3840)), (60, (2160, 3840))];
    let check = check_window(&s, &frames, &[true, true]).expect("report has frames");
    assert!(check.aspect_ok);
    assert_eq!(check.requested, (1080, 1920));
    assert_eq!(check.captured, (2160, 3840));
    assert_eq!(check.frame, 30); // no offender -> the first frame stands in
}

#[test]
fn check_window_flags_the_first_clamped_frame() {
    let mut s = scenario();
    s.resolution = Some([1080, 1920]);
    let frames = [(30, (2160, 3840)), (60, (2160, 1976))];
    let check = check_window(&s, &frames, &[true, false]).expect("report has frames");
    assert!(!check.aspect_ok);
    assert_eq!(check.frame, 60);
    assert_eq!(check.captured, (2160, 1976));
}

#[test]
fn check_window_needs_a_frame() {
    assert!(check_window(&scenario(), &[], &[]).is_none());
    let check = check_window(&scenario(), &[(5, (0, 0))], &[false]).expect("one frame");
    assert_eq!(check.requested, DEFAULT_WINDOW);
    assert!(!check.aspect_ok);
    assert_eq!(check.frame, 5);
}
