//! Recorded-footage replay for the body-tracking pipeline: a directory of
//! numbered image frames served at a fixed wall-clock rate, looping at the
//! end. This module holds the decisions: the `<dir>[@fps]` spec, which
//! directory entries are frames and in what order, the pacing arithmetic,
//! and the looping cursor. Reading the directory, decoding the images and
//! keeping the clock stay with the caller.

use vstd::prelude::*;
use vstd::string::*;
use crate::text::{push_decimal, decimal, text_lt, text_less, lemma_text_lt_transitive};

verus! {

/// Default replay rate when the spec carries no `@fps` suffix.
pub const DEFAULT_FPS: u32 = 30;

/// Slowest replay rate.
pub const MIN_FPS: u32 = 1;

/// Fastest replay rate.
pub const MAX_FPS: u32 = 120;

/// `fps` clamped into `MIN_FPS..=MAX_FPS`.
pub open spec fn clamp_fps(fps: u32) -> u32 {
    if fps < 1 {
        1
    } else if fps > 120 {
        120
    } else {
        fps
    }
}

/// Whether `c` is an ASCII decimal digit.
pub open spec fn is_digit(c: char) -> bool {
    48 <= (c as int) <= 57
}

/// The value of a run of decimal digits, most significant first.
pub open spec fn digits_value(d: Seq<char>) -> nat
    decreases d.len(),
{
    if d.len() == 0 {
        0
    } else {
        (digits_value(d.drop_last()) * 10 + ((d.last() as int) - 48)) as nat
    }
}

/// What `u32::from_str` accepts: an optional `+`, then one or more ASCII
/// digits whose value fits in a `u32`.
pub open spec fn parsed_u32(s: Seq<char>) -> Option<u32> {
    if unsigned_body(s).len() > 0 && all_digits(unsigned_body(s)) && digits_value(
        unsigned_body(s),
    ) <= u32::MAX {
        Some(digits_value(unsigned_body(s)) as u32)
    } else {
        None
    }
}

/// The digits of an unsigned number text: without a leading `+`.
pub open spec fn unsigned_body(s: Seq<char>) -> Seq<char> {
    if s.len() > 0 && s[0] == '+' {
        s.drop_first()
    } else {
        s
    }
}

/// Every character is an ASCII digit.
pub open spec fn all_digits(d: Seq<char>) -> bool {
    forall|i: int| 0 <= i < d.len() ==> is_digit(#[trigger] d[i])
}

/// Position of the last `@` in `s`, if any.
pub open spec fn last_at(s: Seq<char>) -> Option<int> {
    if exists|p: int| 0 <= p < s.len() && #[trigger] s[p] == '@' {
        Some(
            choose|p: int|
                0 <= p < s.len() && #[trigger] s[p] == '@' && forall|q: int|
                    p < q < s.len() ==> s[q] != '@',
        )
    } else {
        None
    }
}

/// The meaning of a `<dir>` / `<dir>@<fps>` spec: split at the last `@`
/// when what follows it parses as a `u32` (clamped into the fps range);
/// otherwise the whole spec is the directory at the default rate.
pub open spec fn replay_spec(s: Seq<char>) -> (Seq<char>, u32) {
    match last_at(s) {
        Some(p) => match parsed_u32(s.subrange(p + 1, s.len() as int)) {
            Some(v) => (s.subrange(0, p), clamp_fps(v)),
            None => (s, DEFAULT_FPS),
        },
        None => (s, DEFAULT_FPS),
    }
}

/// Digit values only grow as digits are appended.
proof fn lemma_digits_prefix(d: Seq<char>, k: int)
    requires
        0 <= k <= d.len(),
        forall|i: int| 0 <= i < d.len() ==> is_digit(#[trigger] d[i]),
    ensures
        digits_value(d.take(k)) <= digits_value(d),
    decreases d.len(),
{
    if k < d.len() {
        let dl = d.drop_last();
        assert(dl.take(k) =~= d.take(k));
        assert forall|i: int| 0 <= i < dl.len() implies is_digit(#[trigger] dl[i]) by {
            assert(dl[i] == d[i]);
        }
        lemma_digits_prefix(dl, k);
    } else {
        assert(d.take(k) =~= d);
    }
}

/// Parse a decimal `u32` the way `u32::from_str` does.
pub fn parse_u32(s: &str) -> (r: Option<u32>)
    ensures
        r == parsed_u32(s@),
{
    let n = s.unicode_len();
    let mut start: usize = 0;
    if n > 0 && s.get_char(0) == '+' {
        start = 1;
    }
    let ghost body = unsigned_body(s@);
    assert(body =~= s@.skip(start as int));
    if start == n {
        return None;
    }
    let mut acc: u64 = 0;
    let mut i: usize = start;
    while i < n
        invariant
            start <= i <= n,
            n == s@.len(),
            start < n,
            body == unsigned_body(s@),
            body =~= s@.skip(start as int),
            forall|k: int| 0 <= k < i - start ==> is_digit(#[trigger] body[k]),
            acc == digits_value(body.take(i - start)),
            acc <= u32::MAX,
        decreases n - i,
    {
        let c = s.get_char(i);
        let ghost k = i - start;
        assert(body[k as int] == c);
        let cu = c as u32;
        if !(48 <= cu && cu <= 57) {
            assert(!is_digit(body[k as int]));
            assert(!all_digits(body));
            return None;
        }
        let digit = (cu - 48) as u64;
        assert(body.take(k + 1).drop_last() =~= body.take(k as int));
        assert(body.take(k + 1).last() == c);
        let next = acc * 10 + digit;
        assert(digits_value(body.take(k + 1)) == next);
        if next > 4294967295 {
            proof {
                if all_digits(body) {
                    lemma_digits_prefix(body, k + 1);
                }
            }
            return None;
        }
        acc = next;
        i = i + 1;
    }
    assert(body.take(i - start) =~= body);
    Some(acc as u32)
}

/// Parse the replay spec: `<dir>` or `<dir>@<fps>`. An `@suffix` that is
/// not a number is part of the path; fps clamps into `1..=120`.
pub fn parse_spec(spec: &str) -> (r: (String, u32))
    ensures
        (r.0@, r.1) == replay_spec(spec@),
{
    let n = spec.unicode_len();
    let mut p: usize = n;
    while p > 0 && spec.get_char(p - 1) != '@'
        invariant
            p <= n,
            n == spec@.len(),
            forall|q: int| p <= q < n ==> spec@[q] != '@',
        decreases p,
    {
        p = p - 1;
    }
    if p == 0 {
        proof {
            assert(!(exists|q: int| 0 <= q < spec@.len() && #[trigger] spec@[q] == '@'));
        }
        return (spec.to_owned(), DEFAULT_FPS);
    }
    let at = p - 1;
    proof {
        let ai = at as int;
        assert(0 <= ai < spec@.len() && spec@[ai] == '@');
        let c = choose|q: int|
            0 <= q < spec@.len() && #[trigger] spec@[q] == '@' && forall|j: int|
                q < j < spec@.len() ==> spec@[j] != '@';
        assert(0 <= ai < spec@.len() && spec@[ai] == '@' && forall|j: int|
            ai < j < spec@.len() ==> spec@[j] != '@');
        if c < ai {
            assert(spec@[ai] != '@');
        }
        if ai < c {
            assert(spec@[c] != '@');
        }
        assert(last_at(spec@) == Some(ai));
    }
    let fps_text = spec.substring_char(at + 1, n);
    match parse_u32(fps_text) {
        Some(fps) => {
            let dir = spec.substring_char(0, at);
            let clamped = if fps < MIN_FPS {
                MIN_FPS
            } else if fps > MAX_FPS {
                MAX_FPS
            } else {
                fps
            };
            (dir.to_owned(), clamped)
        },
        None => (spec.to_owned(), DEFAULT_FPS),
    }
}

/// How many frames a clip at `fps` owes after `micros` microseconds:
/// `micros · fps / 10⁶`, the product saturating at `u128::MAX` and the
/// quotient at `u64::MAX`.
pub open spec fn frames_owed(micros: int, fps: int) -> int {
    let prod = if micros * fps > u128::MAX {
        u128::MAX as int
    } else {
        micros * fps
    };
    if prod / 1000000 > u64::MAX {
        u64::MAX as int
    } else {
        prod / 1000000
    }
}

/// How many frames a clip at `fps` owes after `elapsed_micros` of wall time
/// (frame 0 is due immediately). Integer math throughout.
pub fn frames_due(elapsed_micros: u128, fps: u32) -> (n: u64)
    ensures
        n == frames_owed(elapsed_micros as int, fps as int),
{
    let prod: u128 = match elapsed_micros.checked_mul(fps as u128) {
        Some(v) => v,
        None => u128::MAX,
    };
    let q = prod / 1_000_000;
    if q > 18446744073709551615 {
        u64::MAX
    } else {
        q as u64
    }
}

/// More wall time never owes fewer frames.
pub proof fn lemma_frames_owed_monotone(m1: int, m2: int, fps: int)
    requires
        0 <= m1 <= m2,
        0 <= fps,
    ensures
        frames_owed(m1, fps) <= frames_owed(m2, fps),
{
    vstd::arithmetic::mul::lemma_mul_inequality(m1, m2, fps);
    let p1 = if m1 * fps > u128::MAX {
        u128::MAX as int
    } else {
        m1 * fps
    };
    let p2 = if m2 * fps > u128::MAX {
        u128::MAX as int
    } else {
        m2 * fps
    };
    assert(p1 <= p2);
    vstd::arithmetic::div_mod::lemma_div_is_ordered(p1, p2, 1000000);
}

/// ASCII lowercase of a character (other characters unchanged).
pub open spec fn ascii_lower(c: char) -> int {
    if 65 <= (c as int) <= 90 {
        (c as int) + 32
    } else {
        c as int
    }
}

/// Equal up to ASCII case (what `str::eq_ignore_ascii_case` tests).
pub open spec fn same_ignoring_ascii_case(a: Seq<char>, b: Seq<char>) -> bool {
    a.len() == b.len() && forall|i: int| 0 <= i < a.len() ==> ascii_lower(#[trigger] a[i]) == ascii_lower(b[i])
}

/// The extension of a file name as `Path::extension` reports it: the text
/// after the last `.`, provided that dot is not the name's first character
/// (and the name is not `..`).
pub open spec fn extension_of(name: Seq<char>) -> Option<Seq<char>> {
    if name =~= seq!['.', '.'] {
        None
    } else if exists|p: int| 0 < p < name.len() && #[trigger] name[p] == '.' {
        let p = choose|p: int|
            0 < p < name.len() && #[trigger] name[p] == '.' && forall|q: int|
                p < q < name.len() ==> name[q] != '.';
        Some(name.subrange(p + 1, name.len() as int))
    } else {
        None
    }
}

/// Whether a file name carries one of the replay frame extensions (`png`,
/// `jpg`, `jpeg`, `webp`, any ASCII case).
pub open spec fn is_frame_name(name: Seq<char>) -> bool {
    match extension_of(name) {
        Some(e) => same_ignoring_ascii_case(e, seq!['p', 'n', 'g']) || same_ignoring_ascii_case(
            e,
            seq!['j', 'p', 'g'],
        ) || same_ignoring_ascii_case(e, seq!['j', 'p', 'e', 'g']) || same_ignoring_ascii_case(
            e,
            seq!['w', 'e', 'b', 'p'],
        ),
        None => false,
    }
}

/// ASCII lowercase of a character, as a code.
fn lower_code(c: char) -> (r: u32)
    ensures
        r == ascii_lower(c),
{
    let u = c as u32;
    if 65 <= u && u <= 90 {
        u + 32
    } else {
        u
    }
}

/// Whether `s[from..]` equals `known` (lowercase ASCII letters) up to ASCII
/// case.
fn suffix_is(s: &str, from: usize, n: usize, known: &str) -> (r: bool)
    requires
        n == s@.len(),
        from <= n,
        forall|i: int| 0 <= i < known@.len() ==> 97 <= (#[trigger] known@[i] as int) <= 122,
    ensures
        r == same_ignoring_ascii_case(s@.subrange(from as int, n as int), known@),
{
    let k = known.unicode_len();
    let ghost e = s@.subrange(from as int, n as int);
    if n - from != k {
        return false;
    }
    let mut i: usize = 0;
    while i < k
        invariant
            i <= k,
            k == known@.len(),
            n - from == k,
            n == s@.len(),
            e == s@.subrange(from as int, n as int),
            forall|j: int| 0 <= j < known@.len() ==> 97 <= (#[trigger] known@[j] as int) <= 122,
            forall|j: int| 0 <= j < i ==> ascii_lower(#[trigger] e[j]) == ascii_lower(known@[j]),
        decreases k - i,
    {
        let a = lower_code(s.get_char(from + i));
        let b = lower_code(known.get_char(i));
        assert(e[i as int] == s@[from + i]);
        if a != b {
            return false;
        }
        i = i + 1;
    }
    true
}

/// Whether a directory entry's file name is a replay frame (by extension).
pub fn is_frame_name_exec(name: &str) -> (r: bool)
    ensures
        r == is_frame_name(name@),
{
    let n = name.unicode_len();
    if n == 2 && name.get_char(0) == '.' && name.get_char(1) == '.' {
        assert(name@ =~= seq!['.', '.']);
        return false;
    }
    assert(!(name@ =~= seq!['.', '.']));
    let mut p: usize = n;
    while p > 0 && name.get_char(p - 1) != '.'
        invariant
            p <= n,
            n == name@.len(),
            forall|q: int| p <= q < n ==> name@[q] != '.',
        decreases p,
    {
        p = p - 1;
    }
    if p <= 1 {
        assert(!(exists|q: int| 0 < q < name@.len() && #[trigger] name@[q] == '.'));
        return false;
    }
    let dot = p - 1;
    proof {
        let d = dot as int;
        assert(0 < d < name@.len() && name@[d] == '.' && forall|q: int|
            d < q < name@.len() ==> name@[q] != '.');
        let c = choose|q: int|
            0 < q < name@.len() && #[trigger] name@[q] == '.' && forall|j: int|
                q < j < name@.len() ==> name@[j] != '.';
        if c < d {
            assert(name@[d] != '.');
        }
        if d < c {
            assert(name@[c] != '.');
        }
        assert(extension_of(name@) == Some(name@.subrange(d + 1, name@.len() as int)));
    }
    proof {
        reveal_strlit("png");
        reveal_strlit("jpg");
        reveal_strlit("jpeg");
        reveal_strlit("webp");
        assert("png"@ =~= seq!['p', 'n', 'g']);
        assert("jpg"@ =~= seq!['j', 'p', 'g']);
        assert("jpeg"@ =~= seq!['j', 'p', 'e', 'g']);
        assert("webp"@ =~= seq!['w', 'e', 'b', 'p']);
    }
    suffix_is(name, p, n, "png") || suffix_is(name, p, n, "jpg") || suffix_is(name, p, n, "jpeg")
        || suffix_is(name, p, n, "webp")
}

/// Texts in nondecreasing code-point order.
pub open spec fn sorted_texts(s: Seq<String>) -> bool {
    forall|i: int, j: int| 0 <= i < j < s.len() ==> !text_lt(#[trigger] s[j]@, #[trigger] s[i]@)
}

/// Inserting `item` at the first position whose entry sorts after it keeps
/// a sorted sequence sorted.
proof fn lemma_insert_sorted(before: Seq<String>, p: int, item: String)
    requires
        sorted_texts(before),
        0 <= p <= before.len(),
        forall|k: int| 0 <= k < p ==> !text_lt(item@, #[trigger] before[k]@),
        p < before.len() ==> text_lt(item@, before[p]@),
    ensures
        sorted_texts(before.insert(p, item)),
{
    let out = before.insert(p, item);
    assert forall|a: int, b: int| 0 <= a < b < out.len() implies !text_lt(#[trigger] out[b]@, #[trigger] out[a]@) by {
        if b < p {
            assert(out[a] == before[a] && out[b] == before[b]);
        } else if b == p {
            assert(out[a] == before[a] && out[b] == item);
        } else if a < p {
            assert(out[a] == before[a] && out[b] == before[b - 1]);
        } else if a == p {
            assert(out[a] == item && out[b] == before[b - 1]);
            if text_lt(before[b - 1]@, item@) {
                lemma_text_lt_transitive(before[b - 1]@, item@, before[p]@);
                if b - 1 == p {
                    crate::text::lemma_text_lt_irreflexive(before[p]@);
                }
            }
        } else {
            assert(out[a] == before[a - 1] && out[b] == before[b - 1]);
        }
    }
}

/// Sort texts by code point (stable insertion into the sorted prefix).
fn sort_texts(items: Vec<String>) -> (r: Vec<String>)
    ensures
        sorted_texts(r@),
        r@.to_multiset() == items@.to_multiset(),
{
    let mut out: Vec<String> = Vec::new();
    let mut i: usize = 0;
    proof {
        assert(items@.take(0) =~= Seq::<String>::empty());
        assert(out@ =~= Seq::<String>::empty());
        broadcast use vstd::seq_lib::group_to_multiset_ensures;
    }
    while i < items.len()
        invariant
            i <= items@.len(),
            sorted_texts(out@),
            out@.to_multiset() == items@.take(i as int).to_multiset(),
        decreases items@.len() - i,
    {
        let item = items[i].clone();
        let mut p: usize = 0;
        let mut placed = false;
        while p < out.len() && !placed
            invariant
                p <= out@.len(),
                forall|k: int| 0 <= k < p ==> !text_lt(item@, #[trigger] out@[k]@),
                placed ==> p < out@.len() && text_lt(item@, out@[p as int]@),
            decreases (out@.len() - p) * 2 + (if placed { 0int } else { 1int }),
        {
            if text_less(item.as_str(), out[p].as_str()) {
                placed = true;
            } else {
                p = p + 1;
            }
        }
        let ghost before = out@;
        out.insert(p, item);
        proof {
            lemma_insert_sorted(before, p as int, item);
            assert(items@.take(i + 1) =~= items@.take(i as int).push(items@[i as int]));
            vstd::seq_lib::to_multiset_build(items@.take(i as int), items@[i as int]);
            vstd::seq_lib::to_multiset_insert(before, p as int, item);
        }
        i = i + 1;
    }
    assert(items@.take(items@.len() as int) =~= items@);
    out
}

/// The predicate selecting replay frames among file names.
pub open spec fn frame_filter() -> spec_fn(String) -> bool {
    |s: String| is_frame_name(s@)
}

/// The replay frames among a directory's file names, in lexicographic
/// (code point) order.
pub fn select_frames(names: Vec<String>) -> (r: Vec<String>)
    ensures
        sorted_texts(r@),
        r@.to_multiset() == names@.filter(frame_filter()).to_multiset(),
        forall|i: int| 0 <= i < r@.len() ==> is_frame_name(#[trigger] r@[i]@),
{
    let mut kept: Vec<String> = Vec::new();
    let mut i: usize = 0;
    while i < names.len()
        invariant
            i <= names@.len(),
            kept@ == names@.take(i as int).filter(frame_filter()),
        decreases names@.len() - i,
    {
        proof {
            reveal_with_fuel(Seq::<_>::filter, 1);
            assert(names@.take(i + 1).drop_last() =~= names@.take(i as int));
        }
        if is_frame_name_exec(names[i].as_str()) {
            kept.push(names[i].clone());
        }
        i = i + 1;
    }
    assert(names@.take(names@.len() as int) =~= names@);
    let sorted = sort_texts(kept);
    proof {
        broadcast use vstd::seq_lib::group_filter_ensures;
        let f = names@.filter(frame_filter());
        assert forall|i: int| 0 <= i < sorted@.len() implies is_frame_name(#[trigger] sorted@[i]@) by {
            vstd::seq_lib::to_multiset_contains(sorted@, sorted@[i]);
            vstd::seq_lib::to_multiset_contains(f, sorted@[i]);
            assert(sorted@.contains(sorted@[i]));
            assert(f.contains(sorted@[i]));
            let k = choose|k: int| 0 <= k < f.len() && f[k] == sorted@[i];
            assert(frame_filter()(f[k]));
        }
    }
    sorted
}

/// The diagnostics label of a replay source:
/// `"replay {w}x{h} @{fps}, {n} frames"`.
pub open spec fn label_text(w: u32, h: u32, fps: u32, n: u64) -> Seq<char> {
    "replay "@ + decimal(w as nat) + "x"@ + decimal(h as nat) + " @"@ + decimal(fps as nat) + ", "@
        + decimal(n as nat) + " frames"@
}

/// Render the diagnostics label for a replay of `frames` frames whose first
/// frame is `width`×`height`, requested at `fps`.
pub fn replay_label(width: u32, height: u32, fps: u32, frames: u64) -> (s: String)
    ensures
        s@ == label_text(width, height, fps, frames),
{
    let mut s = "replay ".to_owned();
    push_decimal(&mut s, width as u64);
    s.append("x");
    push_decimal(&mut s, height as u64);
    s.append(" @");
    push_decimal(&mut s, fps as u64);
    s.append(", ");
    push_decimal(&mut s, frames);
    s.append(" frames");
    s
}

/// A list of frame paths served as a paced, looping camera.
pub struct ReplayFrameSource {
    /// Frame paths in lexicographic order (never empty).
    frames: Vec<String>,
    /// Wall-clock replay rate (`1..=120`).
    fps: u32,
    /// Frames served so far (the cursor is `served % frames.len()`).
    served: u64,
    /// Diagnostics label.
    label: String,
}

impl ReplayFrameSource {
    /// The frame paths, in serving order.
    pub closed spec fn frame_list(&self) -> Seq<String> {
        self.frames@
    }

    /// The replay rate.
    pub closed spec fn rate(&self) -> u32 {
        self.fps
    }

    /// Frames served so far.
    pub closed spec fn served_count(&self) -> u64 {
        self.served
    }

    /// The diagnostics label.
    pub closed spec fn label_chars(&self) -> Seq<char> {
        self.label@
    }

    /// A source always has at least one frame and a rate in range.
    pub closed spec fn wf(&self) -> bool {
        &&& self.frames@.len() > 0
        &&& 1 <= self.fps <= 120
    }

    /// A replay of `frames` at `fps` (clamped into `1..=120`), nothing
    /// served yet; `None` when there are no frames.
    pub fn new(frames: Vec<String>, fps: u32, label: String) -> (r: Option<Self>)
        ensures
            r is None <==> frames@.len() == 0,
            r matches Some(src) ==> {
                &&& src.wf()
                &&& src.frame_list() == frames@
                &&& src.rate() == clamp_fps(fps)
                &&& src.served_count() == 0
                &&& src.label_chars() == label@
            },
    {
        if frames.len() == 0 {
            return None;
        }
        let fps = if fps < MIN_FPS {
            MIN_FPS
        } else if fps > MAX_FPS {
            MAX_FPS
        } else {
            fps
        };
        Some(ReplayFrameSource { frames, fps, served: 0, label })
    }

    /// Whether the pacing says the next frame is due after
    /// `elapsed_micros` since the clock was armed.
    pub fn due(&self, elapsed_micros: u128) -> (b: bool)
        ensures
            b == (self.served_count() <= frames_owed(elapsed_micros as int, self.rate() as int)),
    {
        self.served <= frames_due(elapsed_micros, self.fps)
    }

    /// The frame index of the next serve (looping).
    pub fn cursor(&self) -> (i: usize)
        requires
            self.wf(),
        ensures
            i == (self.served_count() as int) % (self.frame_list().len() as int),
            i < self.frame_list().len(),
    {
        let len = self.frames.len() as u64;
        (self.served % len) as usize
    }

    /// The path of the next frame to serve.
    pub fn next_path(&self) -> (p: &str)
        requires
            self.wf(),
        ensures
            p@ == self.frame_list()[(self.served_count() as int) % (self.frame_list().len() as int)]@,
    {
        let i = self.cursor();
        self.frames[i].as_str()
    }

    /// Record one frame served (decoded or discarded — both advance the
    /// same cursor).
    pub fn advance(&mut self)
        requires
            old(self).served_count() < u64::MAX,
        ensures
            final(self).served_count() == old(self).served_count() + 1,
            final(self).frame_list() == old(self).frame_list(),
            final(self).rate() == old(self).rate(),
            final(self).label_chars() == old(self).label_chars(),
            old(self).wf() ==> final(self).wf(),
    {
        self.served = self.served + 1;
    }

    /// Frames served so far.
    pub fn served(&self) -> (n: u64)
        ensures
            n == self.served_count(),
    {
        self.served
    }

    /// The diagnostics label.
    pub fn format_label(&self) -> (l: Option<&str>)
        ensures
            l matches Some(s) && s@ == self.label_chars(),
    {
        Some(self.label.as_str())
    }
}

/// Serving walks the frames in order and wraps: the frame served after `k`
/// serves is frame `k mod n`, so after the last frame comes the first.
pub proof fn lemma_cursor_loops(n: int, k: int)
    requires
        n > 0,
        k >= 0,
    ensures
        (k + 1) % n == (if k % n == n - 1 {
            0
        } else {
            k % n + 1
        }),
{
    let q = k / n;
    let r = k % n;
    vstd::arithmetic::div_mod::lemma_fundamental_div_mod(k, n);
    vstd::arithmetic::div_mod::lemma_mod_bound(k, n);
    if r == n - 1 {
        assert(k + 1 == (q + 1) * n + 0) by (nonlinear_arith)
            requires
                k == n * q + r,
                r == n - 1,
        ;
        vstd::arithmetic::div_mod::lemma_fundamental_div_mod_converse_mod(k + 1, n, q + 1, 0);
    } else {
        assert(k + 1 == q * n + (r + 1)) by (nonlinear_arith)
            requires
                k == n * q + r,
        ;
        vstd::arithmetic::div_mod::lemma_fundamental_div_mod_converse_mod(k + 1, n, q, r + 1);
    }
}

/// Owed frames track elapsed time at the requested rate: the count is the
/// largest `n` whose `n` frame periods (`10⁶ / fps` µs each) fit into the
/// elapsed time, so whole seconds owe exactly `seconds · fps` frames.
pub proof fn lemma_frames_owed_tracks_time(micros: int, fps: int)
    requires
        0 <= micros,
        0 <= fps,
        micros * fps <= u128::MAX,
        micros * fps / 1000000 <= u64::MAX,
    ensures
        frames_owed(micros, fps) * 1000000 <= micros * fps,
        micros * fps < (frames_owed(micros, fps) + 1) * 1000000,
{
    vstd::arithmetic::div_mod::lemma_fundamental_div_mod(micros * fps, 1000000);
}

/// Whole seconds of a replay at `fps` owe exactly `seconds · fps` frames.
pub proof fn lemma_whole_seconds_owe_fps_frames(seconds: int, fps: int)
    requires
        0 <= seconds,
        1 <= fps <= 120,
        seconds * fps <= u64::MAX,
    ensures
        frames_owed(1000000 * seconds, fps) == seconds * fps,
{
    assert((1000000 * seconds) * fps == 1000000 * (seconds * fps)) by (nonlinear_arith);
    assert(1000000 * (seconds * fps) <= u128::MAX) by (nonlinear_arith)
        requires
            0 <= seconds * fps <= u64::MAX,
    ;
    vstd::arithmetic::div_mod::lemma_div_multiples_vanish(seconds * fps, 1000000);
}

} // verus!
