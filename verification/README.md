# waveconductor

The decision logic of the Waveconductor installation — its sketches, camera
pipeline and capture tooling — as a library verified with Verus, plus a thin
command-line and Bevy layer around it.

## Layout

- `src/` — the verified library:
  - `distance_field` — the two-pass chamfer transform, proved equal to the
    exact minimum over all seeds, the signed field and its byte encodings,
    and the generation-gated field resource;
  - `field_upload` — the render-world copy that uploads each field once;
  - `sketch_cycle` — the sketch order and the enabled-only next/previous walk;
  - `body_tracking`, `webcam` — settings and camera-rotation geometry, the
    webcam name resolution;
  - `replay` — the replay spec, frame selection and sorting, pacing and the
    looping cursor;
  - `capture` — the capture scenario, the `WC_DEBUG_*` override table and the
    environment strings handed to the app;
  - `visibility`, `rearm`, `slot_ranges` — the Schmitt latch, the attract
    re-arm countdown, the per-slot edge ranges;
  - `text` — string helpers (trimming, substring search, decimal rendering,
    code-point order) the others are stated over.
- `tests/` — executable tests of the library.
- `app/` — the `xtask` command line (capture orchestration, replay probe,
  settings check), Bevy systems, serde forms of the settings, and the
  floating-point sketch math.
