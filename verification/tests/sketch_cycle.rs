use waveconductor::sketch_cycle::{AppState, SketchCycleSettings};

/// Every SKETCH_ORDER entry has a toggle that defaults to enabled.
#[test]
fn cycle_toggles_cover_sketch_order() {
    let all_on = SketchCycleSettings::default();
    for sketch in AppState::SKETCH_ORDER {
        assert!(all_on.enabled(sketch), "{sketch:?} is in SKETCH_ORDER but reads disabled");
    }
}

#[test]
fn all_enabled_matches_the_unfiltered_cycle() {
    let s = SketchCycleSettings::default();
    for from in AppState::SKETCH_ORDER {
        assert_eq!(s.next_enabled(from), Some(from.next_sketch()), "{from:?}");
        assert_eq!(s.prev_enabled(from), Some(from.prev_sketch()), "{from:?}");
    }
    assert_eq!(s.next_enabled(AppState::Home), Some(AppState::Line));
    assert_eq!(s.prev_enabled(AppState::Home), Some(AppState::Radiance));
}

#[test]
fn disabled_sketch_is_skipped_and_wraps() {
    let s = SketchCycleSettings {
        enable_flame: false,
        ..SketchCycleSettings::default()
    };
    assert_eq!(s.next_enabled(AppState::Line), Some(AppState::Dots));
    assert_eq!(s.prev_enabled(AppState::Dots), Some(AppState::Line));
    assert_eq!(s.next_enabled(AppState::Radiance), Some(AppState::Line));
    assert_eq!(s.prev_enabled(AppState::Line), Some(AppState::Radiance));
}

#[test]
fn current_sketch_disabled_moves_to_nearest_enabled() {
    let s = SketchCycleSettings {
        enable_dots: false,
        ..SketchCycleSettings::default()
    };
    assert_eq!(s.next_enabled(AppState::Dots), Some(AppState::Cymatics));
    assert_eq!(s.prev_enabled(AppState::Dots), Some(AppState::Flame));
}

#[test]
fn all_disabled_yields_none() {
    let s = SketchCycleSettings {
        enable_line: false,
        enable_flame: false,
        enable_dots: false,
        enable_cymatics: false,
        enable_radiance: false,
    };
    for from in AppState::SKETCH_ORDER {
        assert_eq!(s.next_enabled(from), None, "{from:?}");
        assert_eq!(s.prev_enabled(from), None, "{from:?}");
    }
    assert_eq!(s.next_enabled(AppState::Home), None);
}

#[test]
fn single_enabled_sketch_is_found_from_anywhere() {
    let s = SketchCycleSettings {
        enable_line: false,
        enable_flame: false,
        enable_dots: false,
        enable_cymatics: true,
        enable_radiance: false,
    };
    for from in AppState::SKETCH_ORDER {
        assert_eq!(s.next_enabled(from), Some(AppState::Cymatics), "{from:?}");
        assert_eq!(s.prev_enabled(from), Some(AppState::Cymatics), "{from:?}");
    }
}

#[test]
fn non_cycle_states_are_never_stops() {
    let s = SketchCycleSettings::default();
    assert!(!s.enabled(AppState::Home));
    assert!(!s.enabled(AppState::Waves));
    assert_eq!(s.next_enabled(AppState::Waves), Some(AppState::Line));
    assert_eq!(s.prev_enabled(AppState::Waves), Some(AppState::Radiance));
    let only_line = SketchCycleSettings {
        enable_flame: false,
        enable_dots: false,
        enable_cymatics: false,
        enable_radiance: false,
        ..SketchCycleSettings::default()
    };
    // A full lap from the survivor returns to it.
    assert_eq!(only_line.next_enabled(AppState::Line), Some(AppState::Line));
}

#[test]
fn next_then_prev_returns_to_an_enabled_sketch() {
    let settings = SketchCycleSettings {
        enable_flame: false,
        enable_cymatics: false,
        ..SketchCycleSettings::default()
    };
    for from in AppState::SKETCH_ORDER {
        if !settings.enabled(from) {
            continue;
        }
        let there = settings.next_enabled(from).expect("an enabled sketch exists");
        assert_eq!(settings.prev_enabled(there), Some(from), "next then prev from {from:?}");
        let back = settings.prev_enabled(from).expect("an enabled sketch exists");
        assert_eq!(settings.next_enabled(back), Some(from), "prev then next from {from:?}");
    }
    assert_eq!(settings.next_enabled(AppState::Line), Some(AppState::Dots));
    assert_eq!(settings.prev_enabled(AppState::Dots), Some(AppState::Line));
}
