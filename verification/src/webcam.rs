//! Operator webcam selection and the device-name resolution the capture
//! seams open by.

use vstd::prelude::*;
use crate::text::{contains_ignoring_case, contains_text, lowercase, same_text, trim, trimmed};

verus! {

/// The dropdown's "no explicit choice" entry.
pub const AUTO_LABEL: &'static str = "Automatic";

/// Which physical webcam the tracking seams open.
#[derive(Clone, Debug)]
pub struct WebcamSettings {
    /// Capture device by name; empty or [`AUTO_LABEL`] means automatic.
    pub camera: String,
}

impl Default for WebcamSettings {
    /// Automatic (the empty pre-selector value).
    fn default() -> (s: Self)
        ensures
            s.camera@ == Seq::<char>::empty(),
    {
        WebcamSettings { camera: String::new() }
    }
}

/// Whether a stored camera name means "no explicit choice": empty after
/// trimming, or the automatic entry.
pub open spec fn is_automatic(name: Seq<char>) -> bool {
    trimmed(name).len() == 0 || trimmed(name) == AUTO_LABEL@
}

impl WebcamSettings {
    /// The operator's explicit camera choice, trimmed: `None` when automatic
    /// (the [`AUTO_LABEL`] entry, or an empty / whitespace-only value).
    pub fn selected(&self) -> (r: Option<&str>)
        ensures
            r is None <==> is_automatic(self.camera@),
            r matches Some(n) ==> n@ == trimmed(self.camera@),
    {
        let name = trim(self.camera.as_str());
        if name.unicode_len() == 0 || same_text(name, AUTO_LABEL) {
            None
        } else {
            Some(name)
        }
    }
}

/// Names of the attached capture devices, headed by the [`AUTO_LABEL`]
/// entry, for the camera dropdown.
#[derive(Clone, Debug)]
pub struct AvailableCameraDevices(pub Vec<String>);

impl AvailableCameraDevices {
    /// The dropdown's options.
    pub fn options(&self) -> (o: &[String])
        ensures
            o@ == self.0@,
    {
        self.0.as_slice()
    }

    /// Refill the list from a fresh enumeration: the automatic entry first,
    /// then the devices in enumeration order.
    pub fn refill(&mut self, device_names: Vec<String>)
        ensures
            final(self).0@.len() == device_names@.len() + 1,
            final(self).0@[0]@ == AUTO_LABEL@,
            forall|i: int|
                0 <= i < device_names@.len() ==> #[trigger] final(self).0@[i + 1] == device_names@[i],
    {
        let mut list: Vec<String> = Vec::new();
        list.push(AUTO_LABEL.to_owned());
        let mut i: usize = 0;
        while i < device_names.len()
            invariant
                i <= device_names@.len(),
                list@.len() == i + 1,
                list@[0]@ == AUTO_LABEL@,
                forall|k: int| 0 <= k < i ==> #[trigger] list@[k + 1] == device_names@[k],
            decreases device_names@.len() - i,
        {
            list.push(device_names[i].clone());
            i = i + 1;
        }
        self.0 = list;
    }
}

/// Whether device `name` matches the wanted name: the wanted text,
/// lowercased, occurs in the device name, lowercased.
pub open spec fn name_matches(name: Seq<char>, want: Seq<char>) -> bool {
    contains_text(lowercase(name), lowercase(want))
}

/// The index a device list resolves a selection to: the position of the
/// first matching name when there is one and it fits a `u32`, else the
/// fallback.
pub open spec fn resolved_index(names: Seq<String>, want: Option<Seq<char>>, fallback: u32) -> u32 {
    match want {
        None => fallback,
        Some(w) => if exists|p: int| 0 <= p < names.len() && #[trigger] name_matches(names[p]@, w) {
            let p = choose|p: int|
                0 <= p < names.len() && #[trigger] name_matches(names[p]@, w) && forall|q: int|
                    0 <= q < p ==> !name_matches(names[q]@, w);
            if p <= u32::MAX {
                p as u32
            } else {
                fallback
            }
        } else {
            fallback
        },
    }
}

/// The first matching position decides the resolved index.
proof fn lemma_first_match(names: Seq<String>, w: Seq<char>, p: int, fallback: u32)
    requires
        0 <= p < names.len(),
        name_matches(names[p]@, w),
        forall|q: int| 0 <= q < p ==> !#[trigger] name_matches(names[q]@, w),
    ensures
        resolved_index(names, Some(w), fallback) == (if p <= u32::MAX {
            p as u32
        } else {
            fallback
        }),
{
    assert(0 <= p < names.len() && name_matches(names[p]@, w));
    let c = choose|c: int|
        0 <= c < names.len() && #[trigger] name_matches(names[c]@, w) && forall|q: int|
            0 <= q < c ==> !name_matches(names[q]@, w);
    if c < p {
        assert(!name_matches(names[c]@, w));
    }
    if p < c {
        assert(!name_matches(names[p]@, w));
    }
    assert(c == p);
}

/// Position of the first name containing `want` (case-insensitive
/// substring), else `fallback`; `None` (automatic) keeps the fallback.
pub fn resolve_index_by_name(names: &[String], want: Option<&str>, fallback: u32) -> (r: u32)
    ensures
        r == resolved_index(
            names@,
            match want {
                Some(w) => Some(w@),
                None => None,
            },
            fallback,
        ),
{
    let w = match want {
        Some(w) => w,
        None => {
            return fallback;
        },
    };
    let mut i: usize = 0;
    while i < names.len()
        invariant
            want == Some(w),
            i <= names@.len(),
            forall|q: int| 0 <= q < i ==> !#[trigger] name_matches(names@[q]@, w@),
        decreases names@.len() - i,
    {
        if contains_ignoring_case(names[i].as_str(), w) {
            proof {
                lemma_first_match(names@, w@, i as int, fallback);
            }
            if i <= 4294967295 {
                return i as u32;
            } else {
                return fallback;
            }
        }
        i = i + 1;
    }
    fallback
}

} // verus!
