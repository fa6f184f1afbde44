//! Deterministic capture runs: the scenario record, the `WC_DEBUG_*`
//! override table, and the environment strings handed to the app.

use vstd::prelude::*;
use vstd::string::*;
use crate::text::{
    decimal, digit_char, push_decimal, same_text, text_less, text_lt, trim, trimmed,
    lemma_text_lt_irreflexive, lemma_text_lt_transitive, lemma_text_lt_total,
};

verus! {

/// The app's startup window size in logical pixels when a scenario pins no
/// resolution.
pub const DEFAULT_WINDOW: (u32, u32) = (1280, 720);

/// Arguments for the capture subcommand.
#[derive(Clone, Debug)]
pub struct Args {
    /// Scenario name; omitted with `list`.
    pub scenario: Option<String>,
    /// Copy the freshly-captured frames into the baseline dir.
    pub update_baselines: bool,
    /// Let `update_baselines` bless near-zero-luminance frames.
    pub allow_black: bool,
    /// Emit machine-readable JSON instead of the human table.
    pub json: bool,
    /// Launch for hands-on inspection; quit after this many seconds.
    pub watch: Option<u64>,
    /// List available scenarios and exit.
    pub list: bool,
    /// Ad-hoc `WC_DEBUG_*` overrides as `KEY=VAL`.
    pub debug: Vec<String>,
}

// ---------------------------------------------------------------------------
// The debug override table: string keys kept in ascending order.

/// Keys in strictly ascending code-point order (so each key occurs once).
pub open spec fn keys_ascending(s: Seq<(String, String)>) -> bool {
    forall|i: int, j: int| 0 <= i < j < s.len() ==> text_lt(#[trigger] s[i].0@, #[trigger] s[j].0@)
}

/// Whether some entry has key `k`.
pub open spec fn has_key(s: Seq<(String, String)>, k: Seq<char>) -> bool {
    exists|i: int| 0 <= i < s.len() && #[trigger] s[i].0@ == k
}

/// An index holding key `k` (meaningful when [`has_key`]).
pub open spec fn key_index(s: Seq<(String, String)>, k: Seq<char>) -> int {
    choose|i: int| 0 <= i < s.len() && #[trigger] s[i].0@ == k
}

/// The value stored under key `k` (meaningful when [`has_key`]).
pub open spec fn value_of(s: Seq<(String, String)>, k: Seq<char>) -> Seq<char> {
    s[key_index(s, k)].1@
}

/// The table's contents as a map from key to value.
pub open spec fn table_map(s: Seq<(String, String)>) -> Map<Seq<char>, Seq<char>> {
    Map::new(|k: Seq<char>| has_key(s, k), |k: Seq<char>| value_of(s, k))
}

/// With ascending keys, the entry found by index is the one the map reports.
proof fn lemma_lookup_at(s: Seq<(String, String)>, idx: int)
    requires
        keys_ascending(s),
        0 <= idx < s.len(),
    ensures
        has_key(s, s[idx].0@),
        value_of(s, s[idx].0@) == s[idx].1@,
{
    let k = s[idx].0@;
    assert(0 <= idx < s.len() && s[idx].0@ == k);
    let c = key_index(s, k);
    assert(0 <= c < s.len() && s[c].0@ == k);
    if c < idx {
        assert(text_lt(s[c].0@, s[idx].0@));
        lemma_text_lt_irreflexive(k);
    }
    if idx < c {
        assert(text_lt(s[idx].0@, s[c].0@));
        lemma_text_lt_irreflexive(k);
    }
    assert(c == idx);
    assert(value_of(s, k) == s[c].1@);
}

/// A `WC_DEBUG_*` override table: string keys to string values, iterated in
/// ascending key order.
#[derive(Debug)]
pub struct DebugTable {
    entries: Vec<(String, String)>,
}

impl Clone for DebugTable {
    /// An entry-for-entry copy.
    fn clone(&self) -> (t: Self)
        ensures
            t.entry_seq() == self.entry_seq(),
    {
        let mut entries: Vec<(String, String)> = Vec::new();
        let mut i: usize = 0;
        while i < self.entries.len()
            invariant
                i <= self.entries@.len(),
                entries@ == self.entries@.take(i as int),
            decreases self.entries@.len() - i,
        {
            let k = self.entries[i].0.clone();
            let v = self.entries[i].1.clone();
            entries.push((k, v));
            assert(self.entries@.take(i + 1) =~= self.entries@.take(i as int).push(self.entries@[i as int]));
            i = i + 1;
        }
        assert(self.entries@.take(self.entries@.len() as int) =~= self.entries@);
        DebugTable { entries }
    }
}

impl DebugTable {
    /// The entries, in ascending key order.
    pub closed spec fn entry_seq(&self) -> Seq<(String, String)> {
        self.entries@
    }

    /// The table as a map.
    pub open spec fn view(&self) -> Map<Seq<char>, Seq<char>> {
        table_map(self.entry_seq())
    }

    /// Keys are kept strictly ascending.
    pub open spec fn wf(&self) -> bool {
        keys_ascending(self.entry_seq())
    }

    /// An empty table.
    pub fn new() -> (t: Self)
        ensures
            t.wf(),
            t.entry_seq().len() == 0,
            t@ == Map::<Seq<char>, Seq<char>>::empty(),
    {
        let t = DebugTable { entries: Vec::new() };
        assert(t@ =~= Map::<Seq<char>, Seq<char>>::empty());
        t
    }

    /// The entries, in ascending key order.
    pub fn entries(&self) -> (e: &[(String, String)])
        ensures
            e@ == self.entry_seq(),
    {
        self.entries.as_slice()
    }

    /// Number of keys.
    pub fn len(&self) -> (n: usize)
        ensures
            n == self.entry_seq().len(),
    {
        self.entries.len()
    }

    /// The value stored under `key`.
    pub fn get(&self, key: &str) -> (r: Option<&String>)
        requires
            self.wf(),
        ensures
            r is Some <==> self@.contains_key(key@),
            r matches Some(v) ==> v@ == self@[key@],
    {
        let mut i: usize = 0;
        while i < self.entries.len()
            invariant
                i <= self.entries@.len(),
                keys_ascending(self.entries@),
                forall|k: int| 0 <= k < i ==> (#[trigger] self.entries@[k]).0@ != key@,
            decreases self.entries@.len() - i,
        {
            if same_text(self.entries[i].0.as_str(), key) {
                proof {
                    lemma_lookup_at(self.entries@, i as int);
                }
                return Some(&self.entries[i].1);
            }
            i = i + 1;
        }
        None
    }

    /// Set `key` to `value`, replacing any previous value; keys stay in
    /// ascending order.
    pub fn insert(&mut self, key: String, value: String)
        requires
            old(self).wf(),
        ensures
            final(self).wf(),
            final(self)@ == old(self)@.insert(key@, value@),
    {
        let ghost before = self.entries@;
        let mut p: usize = 0;
        let mut stop = false;
        while p < self.entries.len() && !stop
            invariant
                p <= self.entries@.len(),
                self.entries@ == before,
                keys_ascending(before),
                forall|k: int| 0 <= k < p ==> text_lt((#[trigger] before[k]).0@, key@),
                stop ==> p < before.len() && !text_lt(before[p as int].0@, key@),
            decreases (self.entries@.len() - p) * 2 + (if stop { 0int } else { 1int }),
        {
            if text_less(self.entries[p].0.as_str(), key.as_str()) {
                p = p + 1;
            } else {
                stop = true;
            }
        }
        if p < self.entries.len() && same_text(self.entries[p].0.as_str(), key.as_str()) {
            let ghost k0 = before[p as int].0;
            self.entries.set(p, (key, value));
            proof {
                lemma_replace_entry(before, p as int, self.entries@[p as int]);
            }
        } else {
            proof {
                if p < before.len() {
                    lemma_text_lt_total(before[p as int].0@, key@);
                }
            }
            self.entries.insert(p, (key, value));
            proof {
                lemma_insert_entry(before, p as int, self.entries@[p as int]);
            }
        }
    }
}

/// Replacing the entry whose key equals the new key updates the map.
proof fn lemma_replace_entry(before: Seq<(String, String)>, p: int, e: (String, String))
    requires
        keys_ascending(before),
        0 <= p < before.len(),
        before[p].0@ == e.0@,
    ensures
        keys_ascending(before.update(p, e)),
        table_map(before.update(p, e)) == table_map(before).insert(e.0@, e.1@),
{
    let after = before.update(p, e);
    assert forall|i: int, j: int| 0 <= i < j < after.len() implies text_lt(#[trigger] after[i].0@, #[trigger] after[j].0@) by {
        assert(text_lt(before[i].0@, before[j].0@));
    }
    let m1 = table_map(after);
    let m2 = table_map(before).insert(e.0@, e.1@);
    assert forall|k: Seq<char>| #[trigger] m1.contains_key(k) <==> m2.contains_key(k) by {
        if has_key(after, k) {
            let i = choose|i: int| 0 <= i < after.len() && #[trigger] after[i].0@ == k;
            if i != p {
                assert(before[i].0@ == k);
            }
        }
        if has_key(before, k) {
            let i = choose|i: int| 0 <= i < before.len() && #[trigger] before[i].0@ == k;
            if i == p {
                assert(after[p].0@ == k);
            } else {
                assert(after[i].0@ == k);
            }
        }
        if k == e.0@ {
            assert(after[p].0@ == k);
        }
    }
    assert forall|k: Seq<char>| #[trigger] m1.contains_key(k) implies m1[k] == m2[k] by {
        let i = choose|i: int| 0 <= i < after.len() && #[trigger] after[i].0@ == k;
        lemma_lookup_at(after, i);
        if i != p {
            assert(before[i] == after[i]);
            lemma_lookup_at(before, i);
            if i < p {
                assert(text_lt(before[i].0@, before[p].0@));
            } else {
                assert(text_lt(before[p].0@, before[i].0@));
            }
            if k == e.0@ {
                lemma_text_lt_irreflexive(k);
            }
            assert(m2[k] == table_map(before)[k]);
        } else {
            assert(after[p] == e);
        }
    }
    assert(m1 =~= m2);
}

/// Key-wise half of [`lemma_insert_entry`].
proof fn lemma_insert_value(before: Seq<(String, String)>, p: int, e: (String, String), k: Seq<char>)
    requires
        keys_ascending(before),
        keys_ascending(before.insert(p, e)),
        0 <= p <= before.len(),
        forall|k: int| 0 <= k < p ==> text_lt((#[trigger] before[k]).0@, e.0@),
        p < before.len() ==> text_lt(e.0@, before[p].0@),
        table_map(before.insert(p, e)).contains_key(k),
    ensures
        table_map(before.insert(p, e))[k] == table_map(before).insert(e.0@, e.1@)[k],
{
    let after = before.insert(p, e);
    let m1 = table_map(after);
    let m2 = table_map(before).insert(e.0@, e.1@);
        let i = choose|i: int| 0 <= i < after.len() && #[trigger] after[i].0@ == k;
        lemma_lookup_at(after, i);
        assert(m1[k] == value_of(after, k));
        assert(m1[k] == after[i].1@);
        if i < p {
            assert(after[i] == before[i]);
            lemma_lookup_at(before, i);
            assert(text_lt(before[i].0@, e.0@));
            if k == e.0@ {
                lemma_text_lt_irreflexive(k);
            }
            assert(m2[k] == table_map(before)[k]);
            assert(table_map(before)[k] == before[i].1@);
            assert(m1[k] == m2[k]);
        } else if i > p {
            assert(after[i] == before[i - 1]);
            lemma_lookup_at(before, i - 1);
            assert(after[p] == e);
            assert(text_lt(after[p].0@, after[i].0@));
            if k == e.0@ {
                lemma_text_lt_irreflexive(k);
            }
            assert(m2[k] == table_map(before)[k]);
            assert(table_map(before)[k] == before[i - 1].1@);
            assert(m1[k] == m2[k]);
        } else {
            assert(after[p] == e);
            assert(m2[k] == e.1@);
            assert(m1[k] == m2[k]);
        }
    }

/// Inserting a new key at its ascending position updates the map.
proof fn lemma_insert_entry(before: Seq<(String, String)>, p: int, e: (String, String))
    requires
        keys_ascending(before),
        0 <= p <= before.len(),
        forall|k: int| 0 <= k < p ==> text_lt((#[trigger] before[k]).0@, e.0@),
        p < before.len() ==> text_lt(e.0@, before[p].0@),
    ensures
        keys_ascending(before.insert(p, e)),
        table_map(before.insert(p, e)) == table_map(before).insert(e.0@, e.1@),
{
    let after = before.insert(p, e);
    assert forall|i: int, j: int| 0 <= i < j < after.len() implies text_lt(#[trigger] after[i].0@, #[trigger] after[j].0@) by {
        if j < p {
            assert(after[i] == before[i] && after[j] == before[j]);
        } else if j == p {
            assert(after[i] == before[i]);
        } else if i < p {
            assert(after[i] == before[i] && after[j] == before[j - 1]);
            assert(text_lt(before[i].0@, e.0@));
            if j - 1 > p {
                assert(text_lt(before[p].0@, before[j - 1].0@));
                lemma_text_lt_transitive(e.0@, before[p].0@, before[j - 1].0@);
            }
            lemma_text_lt_transitive(before[i].0@, e.0@, before[j - 1].0@);
        } else if i == p {
            assert(after[j] == before[j - 1]);
            if j - 1 > p {
                assert(text_lt(before[p].0@, before[j - 1].0@));
                lemma_text_lt_transitive(e.0@, before[p].0@, before[j - 1].0@);
            }
        } else {
            assert(after[i] == before[i - 1] && after[j] == before[j - 1]);
        }
    }
    let m1 = table_map(after);
    let m2 = table_map(before).insert(e.0@, e.1@);
    assert forall|k: Seq<char>| #[trigger] m1.contains_key(k) <==> m2.contains_key(k) by {
        if has_key(after, k) {
            let i = choose|i: int| 0 <= i < after.len() && #[trigger] after[i].0@ == k;
            if i < p {
                assert(before[i].0@ == k);
            } else if i > p {
                assert(before[i - 1].0@ == k);
            }
        }
        if has_key(before, k) {
            let i = choose|i: int| 0 <= i < before.len() && #[trigger] before[i].0@ == k;
            if i < p {
                assert(after[i].0@ == k);
            } else {
                assert(after[i + 1].0@ == k);
            }
        }
        if k == e.0@ {
            assert(after[p].0@ == k);
        }
    }
    assert forall|k: Seq<char>| #[trigger] m1.contains_key(k) implies m1[k] == m2[k] by {
        lemma_insert_value(before, p, e, k);
    }
    assert(m1 =~= m2);
}

// ---------------------------------------------------------------------------
// Scenario and the strings built from it.

/// One capture scenario (the floating-point `dt` pin is carried by the
/// caller, already rendered as text).
#[derive(Clone, Debug)]
pub struct Scenario {
    /// Sketch to start in.
    pub sketch: String,
    /// Hand provider name.
    pub provider: String,
    /// Config dir, or `"clean"` for a fresh temporary one.
    pub config: String,
    /// Scenario `WC_DEBUG_*` table (keys without the prefix).
    pub debug: DebugTable,
    /// Frames to capture.
    pub frames: Vec<u32>,
    /// Pinned window resolution `[w, h]`, if any.
    pub resolution: Option<[u32; 2]>,
}

/// `KEY=VAL` split at the first `=`, if there is one.
pub open spec fn split_at_eq(s: Seq<char>) -> Option<(Seq<char>, Seq<char>)> {
    if exists|p: int| 0 <= p < s.len() && #[trigger] s[p] == '=' {
        let p = choose|p: int|
            0 <= p < s.len() && #[trigger] s[p] == '=' && forall|q: int| 0 <= q < p ==> s[q] != '=';
        Some((s.subrange(0, p), s.subrange(p + 1, s.len() as int)))
    } else {
        None
    }
}

/// The table after applying `overrides` in order: each `KEY=VAL` sets the
/// trimmed key to the trimmed value (later ones win); an override without
/// `=` is ignored.
pub open spec fn merged_map(base: Map<Seq<char>, Seq<char>>, overrides: Seq<String>) -> Map<
    Seq<char>,
    Seq<char>,
>
    decreases overrides.len(),
{
    if overrides.len() == 0 {
        base
    } else {
        let m = merged_map(base, overrides.drop_last());
        match split_at_eq(overrides.last()@) {
            Some((k, v)) => m.insert(trimmed(k), trimmed(v)),
            None => m,
        }
    }
}

/// Split `s` at its first `=`.
fn split_once_eq(s: &str) -> (r: Option<(&str, &str)>)
    ensures
        match split_at_eq(s@) {
            Some((k, v)) => r matches Some((a, b)) && a@ == k && b@ == v,
            None => r is None,
        },
{
    let n = s.unicode_len();
    let mut p: usize = 0;
    while p < n && s.get_char(p) != '='
        invariant
            p <= n,
            n == s@.len(),
            forall|q: int| 0 <= q < p ==> s@[q] != '=',
        decreases n - p,
    {
        p = p + 1;
    }
    if p == n {
        assert(!(exists|q: int| 0 <= q < s@.len() && #[trigger] s@[q] == '='));
        return None;
    }
    proof {
        let pi = p as int;
        assert(0 <= pi < s@.len() && s@[pi] == '=' && forall|q: int| 0 <= q < pi ==> s@[q] != '=');
        let c = choose|c: int|
            0 <= c < s@.len() && #[trigger] s@[c] == '=' && forall|q: int| 0 <= q < c ==> s@[q] != '=';
        if c < pi {
            assert(s@[c] != '=');
        }
        if pi < c {
            assert(s@[pi] != '=');
        }
    }
    Some((s.substring_char(0, p), s.substring_char(p + 1, n)))
}

/// Merge CLI `--debug KEY=VAL` overrides over a scenario's debug table.
/// CLI values win; new keys are added.
pub fn merge_debug(scenario: &Scenario, overrides: &[String]) -> (merged: DebugTable)
    requires
        scenario.debug.wf(),
    ensures
        merged.wf(),
        merged@ == merged_map(scenario.debug@, overrides@),
{
    let mut merged = scenario.debug.clone();
    let mut i: usize = 0;
    while i < overrides.len()
        invariant
            i <= overrides@.len(),
            merged.wf(),
            merged@ == merged_map(scenario.debug@, overrides@.take(i as int)),
        decreases overrides@.len() - i,
    {
        assert(overrides@.take(i + 1).drop_last() =~= overrides@.take(i as int));
        assert(overrides@.take(i + 1).last() == overrides@[i as int]);
        if let Some((k, v)) = split_once_eq(overrides[i].as_str()) {
            merged.insert(trim(k).to_owned(), trim(v).to_owned());
        }
        i = i + 1;
    }
    assert(overrides@.take(overrides@.len() as int) =~= overrides@);
    merged
}

/// Turn a merged debug table into `(WC_DEBUG_<KEY>, VAL)` environment
/// pairs, in ascending key order.
pub fn debug_env_pairs(merged: &DebugTable) -> (pairs: Vec<(String, String)>)
    ensures
        pairs@.len() == merged.entry_seq().len(),
        forall|i: int|
            0 <= i < pairs@.len() ==> {
                &&& (#[trigger] pairs@[i]).0@ == "WC_DEBUG_"@ + merged.entry_seq()[i].0@
                &&& pairs@[i].1@ == merged.entry_seq()[i].1@
            },
{
    let entries = merged.entries();
    let mut pairs: Vec<(String, String)> = Vec::new();
    let mut i: usize = 0;
    while i < entries.len()
        invariant
            i <= entries@.len(),
            entries@ == merged.entry_seq(),
            pairs@.len() == i,
            forall|k: int|
                0 <= k < i ==> {
                    &&& (#[trigger] pairs@[k]).0@ == "WC_DEBUG_"@ + entries@[k].0@
                    &&& pairs@[k].1@ == entries@[k].1@
                },
        decreases entries@.len() - i,
    {
        let mut key = "WC_DEBUG_".to_owned();
        key.append(entries[i].0.as_str());
        pairs.push((key, entries[i].1.clone()));
        i = i + 1;
    }
    pairs
}

/// `"WxH"` for a pinned resolution.
pub open spec fn size_text(w: u32, h: u32) -> Seq<char> {
    decimal(w as nat) + "x"@ + decimal(h as nat)
}

/// The `WC_CAPTURE_RESOLUTION` value for a scenario: `"WxH"` when it pins a
/// window resolution, `None` when it relies on the app's default.
pub fn resolution_env(scenario: &Scenario) -> (r: Option<String>)
    ensures
        match scenario.resolution {
            Some(res) => r matches Some(s) && s@ == size_text(res[0], res[1]),
            None => r is None,
        },
{
    match scenario.resolution {
        Some(res) => {
            let mut s = String::new();
            push_decimal(&mut s, res[0] as u64);
            s.append("x");
            push_decimal(&mut s, res[1] as u64);
            Some(s)
        },
        None => None,
    }
}

/// The window size a scenario asks for, in logical pixels: its resolution
/// when pinned, otherwise [`DEFAULT_WINDOW`].
pub fn requested_window(scenario: &Scenario) -> (size: (u32, u32))
    ensures
        size == (match scenario.resolution {
            Some(res) => (res[0], res[1]),
            None => DEFAULT_WINDOW,
        }),
{
    match scenario.resolution {
        Some(res) => (res[0], res[1]),
        None => DEFAULT_WINDOW,
    }
}

// ---------------------------------------------------------------------------
// The requested-vs-captured window report.

/// Relative tolerance of the captured-vs-requested aspect check, in
/// ten-thousandths of the requested aspect (1%).
pub const ASPECT_TOLERANCE_TEN_THOUSANDTHS: u32 = 100;

/// Outcome of the requested-vs-realized window check of a capture run.
#[derive(Clone, Copy, Debug)]
pub struct WindowCheck {
    /// Window size the scenario asked for, in logical pixels.
    pub requested: (u32, u32),
    /// Realized framebuffer size read back from a captured frame.
    pub captured: (u32, u32),
    /// Frame the captured size was read from.
    pub frame: u32,
    /// Whether the captured aspect matches the requested one.
    pub aspect_ok: bool,
}

/// The first captured frame whose aspect does not match, if any.
pub open spec fn first_mismatch(matches: Seq<bool>) -> Option<int> {
    if exists|i: int| 0 <= i < matches.len() && !#[trigger] matches[i] {
        Some(choose|i: int| 0 <= i < matches.len() && !#[trigger] matches[i] && forall|k: int| 0 <= k < i ==> matches[k])
    } else {
        None
    }
}

/// Compare the requested window with the captured frames (`frames[i]` is
/// a frame index and its captured size; `matches[i]` whether that size
/// keeps the requested aspect): the first mismatching frame is reported,
/// else the first frame stands in with the verdict `aspect_ok`; `None`
/// when nothing was captured.
pub fn check_window(scenario: &Scenario, frames: &[(u32, (u32, u32))], matches: &[bool]) -> (c: Option<WindowCheck>)
    requires
        matches@.len() == frames@.len(),
    ensures
        c is None <==> frames@.len() == 0,
        c matches Some(w) ==> {
            &&& w.requested == (match scenario.resolution {
                Some(res) => (res[0], res[1]),
                None => DEFAULT_WINDOW,
            })
            &&& w.aspect_ok == (first_mismatch(matches@) is None)
            &&& match first_mismatch(matches@) {
                Some(i) => w.frame == frames@[i].0 && w.captured == frames@[i].1,
                None => w.frame == frames@[0].0 && w.captured == frames@[0].1,
            }
        },
{
    let requested = requested_window(scenario);
    let mut i: usize = 0;
    while i < frames.len()
        invariant
            i <= frames@.len(),
            matches@.len() == frames@.len(),
            forall|k: int| 0 <= k < i ==> matches@[k],
            requested == (match scenario.resolution {
                Some(res) => (res[0], res[1]),
                None => DEFAULT_WINDOW,
            }),
        decreases frames@.len() - i,
    {
        if !matches[i] {
            proof {
                let m = matches@;
                assert(0 <= i < m.len() && !m[i as int]);
                let c = choose|c: int| 0 <= c < m.len() && !#[trigger] m[c] && forall|k: int| 0 <= k < c ==> m[k];
                if c < i {
                    assert(m[c]);
                }
                if i < c {
                    assert(m[i as int]);
                }
                assert(first_mismatch(m) == Some(i as int));
            }
            return Some(WindowCheck { requested, captured: frames[i].1, frame: frames[i].0, aspect_ok: false });
        }
        i = i + 1;
    }
    if frames.len() == 0 {
        return None;
    }
    Some(WindowCheck { requested, captured: frames[0].1, frame: frames[0].0, aspect_ok: true })
}

/// `w / h` in ten-thousandths, rounded to the nearest, ties to even.
///
/// This is the number `{:.4}` prints for the `f64` quotient: a tie has a
/// power-of-two denominator, so the quotient is exact and rounds to even,
/// and no other quotient of two `u32`s lies close enough to a rounding
/// boundary for the `f64` error to cross it.
pub open spec fn aspect_ten_thousandths(w: nat, h: nat) -> nat
    recommends
        h > 0,
{
    let q = w * 10000 / h;
    let r = w * 10000 % h;
    if 2 * r > h || (2 * r == h && q % 2 == 1) {
        q + 1
    } else {
        q
    }
}

/// A count of ten-thousandths as a decimal with four places: `0.5625`.
pub open spec fn four_places(n: nat) -> Seq<char> {
    let m = n % 10000;
    decimal(n / 10000) + "."@ + seq![
        digit_char((m / 1000) as int),
        digit_char((m / 100 % 10) as int),
        digit_char((m / 10 % 10) as int),
        digit_char((m % 10) as int),
    ]
}

/// The aspect of a size with four places; `None` for a zero height.
pub open spec fn aspect_text(size: (u32, u32)) -> Option<Seq<char>> {
    if size.1 == 0 {
        None
    } else {
        Some(four_places(aspect_ten_thousandths(size.0 as nat, size.1 as nat)))
    }
}

/// `WxH (aspect A)`, with `n/a` for a zero height.
pub open spec fn size_with_aspect_text(size: (u32, u32)) -> Seq<char> {
    size_text(size.0, size.1) + " (aspect "@ + (match aspect_text(size) {
        Some(a) => a,
        None => "n/a"@,
    }) + ")"@
}

/// An aspect as a JSON value: the number, or `null` for a zero height.
pub open spec fn aspect_json(size: (u32, u32)) -> Seq<char> {
    match aspect_text(size) {
        Some(a) => a,
        None => "null"@,
    }
}

/// `true` / `false`.
pub open spec fn bool_text(b: bool) -> Seq<char> {
    if b {
        "true"@
    } else {
        "false"@
    }
}

/// The `window` object of the JSON report; `null` when there was no frame.
pub open spec fn window_json_text(window: Option<WindowCheck>) -> Seq<char> {
    match window {
        None => "null"@,
        Some(w) => "{\"requested\":["@ + decimal(w.requested.0 as nat) + ","@ + decimal(
            w.requested.1 as nat,
        ) + "],\"requested_aspect\":"@ + aspect_json(w.requested) + ",\"captured\":["@ + decimal(
            w.captured.0 as nat,
        ) + ","@ + decimal(w.captured.1 as nat) + "],\"captured_aspect\":"@ + aspect_json(w.captured)
            + ",\"frame\":"@ + decimal(w.frame as nat) + ",\"aspect_tolerance\":"@ + four_places(
            ASPECT_TOLERANCE_TEN_THOUSANDTHS as nat,
        ) + ",\"aspect_ok\":"@ + bool_text(w.aspect_ok) + "}"@,
    }
}

/// Append `n` ten-thousandths with four decimal places.
fn push_four_places(s: &mut String, n: u64)
    ensures
        final(s)@ == old(s)@ + four_places(n as nat),
{
    proof {
        reveal_strlit(".");
    }
    let m = n % 10000;
    push_decimal(s, n / 10000);
    s.append(".");
    push_decimal(s, m / 1000);
    push_decimal(s, m / 100 % 10);
    push_decimal(s, m / 10 % 10);
    push_decimal(s, m % 10);
    proof {
        assert(decimal((m / 1000) as nat) == seq![digit_char((m / 1000) as int)]);
        assert(decimal((m / 100 % 10) as nat) == seq![digit_char((m / 100 % 10) as int)]);
        assert(decimal((m / 10 % 10) as nat) == seq![digit_char((m / 10 % 10) as int)]);
        assert(decimal((m % 10) as nat) == seq![digit_char((m % 10) as int)]);
    }
}

/// Append the aspect of `size` (four places), or `fallback` for a zero
/// height.
fn push_aspect(s: &mut String, size: (u32, u32), fallback: &str)
    ensures
        final(s)@ == old(s)@ + (match aspect_text(size) {
            Some(a) => a,
            None => fallback@,
        }),
{
    if size.1 == 0 {
        s.append(fallback);
        return;
    }
    let w = size.0 as u64;
    let h = size.1 as u64;
    assert(w * 10000 <= 4294967295 * 10000) by (nonlinear_arith)
        requires
            w <= 4294967295,
    ;
    let scaled = w * 10000;
    let q = scaled / h;
    let r = scaled % h;
    let rounded = if r > h - r || (r == h - r && q % 2 == 1) {
        q + 1
    } else {
        q
    };
    push_four_places(s, rounded);
}

/// `WxH (aspect A)` for operator-facing output; the aspect reads `n/a` for
/// a zero height.
pub fn fmt_size(size: (u32, u32)) -> (t: String)
    ensures
        t@ == size_with_aspect_text(size),
{
    let mut t = String::new();
    push_decimal(&mut t, size.0 as u64);
    t.append("x");
    push_decimal(&mut t, size.1 as u64);
    t.append(" (aspect ");
    push_aspect(&mut t, size, "n/a");
    t.append(")");
    t
}

/// The `window` object of the JSON report: the requested and captured
/// geometry with their aspects, the tolerance, and the verdict; `null`
/// when there was no frame to measure.
pub fn window_json(window: Option<&WindowCheck>) -> (j: String)
    ensures
        j@ == window_json_text(
            match window {
                Some(w) => Some(*w),
                None => None,
            },
        ),
{
    let w = match window {
        Some(w) => w,
        None => {
            return "null".to_owned();
        },
    };
    let mut j = "{\"requested\":[".to_owned();
    push_decimal(&mut j, w.requested.0 as u64);
    j.append(",");
    push_decimal(&mut j, w.requested.1 as u64);
    j.append("],\"requested_aspect\":");
    push_aspect(&mut j, w.requested, "null");
    j.append(",\"captured\":[");
    push_decimal(&mut j, w.captured.0 as u64);
    j.append(",");
    push_decimal(&mut j, w.captured.1 as u64);
    j.append("],\"captured_aspect\":");
    push_aspect(&mut j, w.captured, "null");
    j.append(",\"frame\":");
    push_decimal(&mut j, w.frame as u64);
    j.append(",\"aspect_tolerance\":");
    push_four_places(&mut j, ASPECT_TOLERANCE_TEN_THOUSANDTHS as u64);
    j.append(",\"aspect_ok\":");
    if w.aspect_ok {
        j.append("true");
    } else {
        j.append("false");
    }
    j.append("}");
    j
}

/// The frame list joined with commas, in decimal.
pub open spec fn frames_text(frames: Seq<u32>) -> Seq<char>
    decreases frames.len(),
{
    if frames.len() == 0 {
        Seq::empty()
    } else if frames.len() == 1 {
        decimal(frames[0] as nat)
    } else {
        frames_text(frames.drop_last()) + ","@ + decimal(frames.last() as nat)
    }
}

/// The `WC_CAPTURE` schedule string.
pub open spec fn capture_text(
    name: Seq<char>,
    frames: Seq<u32>,
    out_dir: Seq<char>,
    dt: Option<Seq<char>>,
    commit: Option<Seq<char>>,
) -> Seq<char> {
    "dir="@ + out_dir + ";frames="@ + frames_text(frames) + (match dt {
        Some(d) => ";dt="@ + d,
        None => Seq::empty(),
    }) + ";scenario="@ + name + (match commit {
        Some(c) => ";commit="@ + c,
        None => Seq::empty(),
    })
}

/// Assemble the `WC_CAPTURE` environment value for a scenario and output
/// dir: `dir=<out_dir>;frames=<a,b,..>[;dt=<dt>];scenario=<name>[;commit=<c>]`.
/// `dt` is the scenario's pinned frame delta, already rendered as text.
pub fn build_wc_capture(
    name: &str,
    scenario: &Scenario,
    out_dir: &str,
    dt: Option<&str>,
    commit: Option<&str>,
) -> (wc: String)
    ensures
        wc@ == capture_text(
            name@,
            scenario.frames@,
            out_dir@,
            match dt {
                Some(d) => Some(d@),
                None => None,
            },
            match commit {
                Some(c) => Some(c@),
                None => None,
            },
        ),
{
    let mut wc = "dir=".to_owned();
    wc.append(out_dir);
    wc.append(";frames=");
    let ghost prefix = wc@;
    let frames = &scenario.frames;
    let mut i: usize = 0;
    while i < frames.len()
        invariant
            i <= frames@.len(),
            wc@ == prefix + frames_text(frames@.take(i as int)),
        decreases frames@.len() - i,
    {
        if i > 0 {
            wc.append(",");
        }
        push_decimal(&mut wc, frames[i] as u64);
        proof {
            let t = frames@.take(i + 1);
            assert(t.drop_last() =~= frames@.take(i as int));
            assert(t.last() == frames@[i as int]);
            if i == 0 {
                assert(frames@.take(0) =~= Seq::<u32>::empty());
            }
        }
        i = i + 1;
    }
    assert(frames@.take(frames@.len() as int) =~= frames@);
    if let Some(d) = dt {
        wc.append(";dt=");
        wc.append(d);
    }
    wc.append(";scenario=");
    wc.append(name);
    if let Some(c) = commit {
        wc.append(";commit=");
        wc.append(c);
    }
    wc
}

/// Whether an override text sets `key` (it has an `=` and its trimmed
/// left side is `key`).
pub open spec fn sets_key(s: Seq<char>, key: Seq<char>) -> bool {
    match split_at_eq(s) {
        Some((k, v)) => trimmed(k) == key,
        None => false,
    }
}

/// The trimmed right side of an override text.
pub open spec fn set_value(s: Seq<char>) -> Seq<char> {
    match split_at_eq(s) {
        Some((k, v)) => trimmed(v),
        None => Seq::empty(),
    }
}

/// CLI overrides win over the scenario table: the last override setting a
/// key decides its value, and a key no override sets keeps the scenario's
/// entry (or stays absent).
pub proof fn lemma_cli_overrides_win(
    base: Map<Seq<char>, Seq<char>>,
    overrides: Seq<String>,
    key: Seq<char>,
)
    ensures
        (forall|i: int| 0 <= i < overrides.len() ==> !sets_key(#[trigger] overrides[i]@, key))
            ==> merged_map(base, overrides).contains_key(key) == base.contains_key(key) && (
        base.contains_key(key) ==> merged_map(base, overrides)[key] == base[key]),
        overrides.len() > 0 && sets_key(overrides.last()@, key) ==> merged_map(
            base,
            overrides,
        ).contains_key(key) && merged_map(base, overrides)[key] == set_value(overrides.last()@),
    decreases overrides.len(),
{
    if overrides.len() > 0 {
        lemma_cli_overrides_win(base, overrides.drop_last(), key);
        if forall|i: int| 0 <= i < overrides.len() ==> !sets_key(#[trigger] overrides[i]@, key) {
            assert forall|i: int| 0 <= i < overrides.drop_last().len() implies !sets_key(
                #[trigger] overrides.drop_last()[i]@,
                key,
            ) by {
                assert(overrides.drop_last()[i] == overrides[i]);
            }
            assert(!sets_key(overrides[overrides.len() - 1]@, key));
        }
    }
}

/// The frame list of a one-frame schedule is that frame in decimal.
pub proof fn lemma_frames_text_single(x: u32)
    ensures
        frames_text(seq![x]) == decimal(x as nat),
{
}

/// The frame list joins every frame: the text of two non-empty runs of
/// frames one after the other is their two texts joined by one comma, so
/// each frame appears, in order, exactly once.
pub proof fn lemma_frames_text_joins(f: Seq<u32>, g: Seq<u32>)
    requires
        f.len() > 0,
        g.len() > 0,
    ensures
        frames_text(f + g) == frames_text(f) + ","@ + frames_text(g),
    decreases g.len(),
{
    let fg = f + g;
    assert(fg.last() == g.last());
    if g.len() == 1 {
        assert(fg.drop_last() =~= f);
        assert(frames_text(g) == decimal(g[0] as nat));
    } else {
        let g1 = g.drop_last();
        assert(fg.drop_last() =~= f + g1);
        lemma_frames_text_joins(f, g1);
        assert(frames_text(fg) == frames_text(f + g1) + ","@ + decimal(g.last() as nat));
        assert(frames_text(g) == frames_text(g1) + ","@ + decimal(g.last() as nat));
        assert(frames_text(fg) =~= frames_text(f) + ","@ + frames_text(g));
    }
}

} // verus!
