//! Verified core of an interactive webcam art installation: the silhouette
//! distance field, the sketch button cycle, camera and tracking settings,
//! recorded-footage replay, capture tooling, and the small state machines
//! around them.

pub mod text;
pub mod distance_field;
pub mod field_upload;
pub mod sketch_cycle;
pub mod body_tracking;
pub mod webcam;
pub mod replay;
pub mod capture;
pub mod visibility;
pub mod rearm;
pub mod slot_ranges;
