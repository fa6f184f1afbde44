//! Text helpers shared by the settings and tooling modules: whitespace
//! trimming, character-wise comparison, substring search, decimal
//! rendering, and case folding.

use vstd::prelude::*;
use vstd::string::*;

verus! {

/// Unicode `White_Space` (what `char::is_whitespace` tests).
pub open spec fn is_white_space(c: char) -> bool {
    let u = c as u32;
    (0x9 <= u <= 0xD) || u == 0x20 || u == 0x85 || u == 0xA0 || u == 0x1680 || (0x2000 <= u
        <= 0x200A) || u == 0x2028 || u == 0x2029 || u == 0x202F || u == 0x205F || u == 0x3000
}

/// `[a, b)` is the span of `s` left after stripping leading and trailing
/// whitespace.
pub open spec fn trim_bounds(s: Seq<char>, a: int, b: int) -> bool {
    &&& 0 <= a <= b <= s.len()
    &&& forall|i: int| 0 <= i < a ==> is_white_space(#[trigger] s[i])
    &&& forall|i: int| b <= i < s.len() ==> is_white_space(#[trigger] s[i])
    &&& a < b ==> !is_white_space(s[a]) && !is_white_space(s[b - 1])
}

/// `s` without its leading and trailing whitespace (what `str::trim`
/// returns).
pub open spec fn trimmed(s: Seq<char>) -> Seq<char> {
    let (a, b) = choose|a: int, b: int| trim_bounds(s, a, b);
    s.subrange(a, b)
}

/// Any two trim spans cut the same text.
proof fn lemma_trim_unique(s: Seq<char>, a: int, b: int, a2: int, b2: int)
    requires
        trim_bounds(s, a, b),
        trim_bounds(s, a2, b2),
    ensures
        s.subrange(a, b) =~= s.subrange(a2, b2),
{
    if a < b {
        if a2 == b2 {
            assert(is_white_space(s[a]) || a2 <= a);
            assert(!is_white_space(s[a]));
        }
        if a2 < a {
            assert(is_white_space(s[a2]));
        }
        if a < a2 {
            assert(is_white_space(s[a]));
        }
        if b2 < b {
            assert(is_white_space(s[b - 1]));
        }
        if b < b2 {
            assert(is_white_space(s[b2 - 1]));
        }
    } else if a2 < b2 {
        if a2 < a {
            assert(is_white_space(s[a2]));
        } else {
            assert(is_white_space(s[a2]));
        }
    }
}

/// A trim span found by scanning pins down [`trimmed`].
pub proof fn lemma_trimmed_is(s: Seq<char>, a: int, b: int)
    requires
        trim_bounds(s, a, b),
    ensures
        trimmed(s) == s.subrange(a, b),
{
    let (a2, b2) = choose|a2: int, b2: int| trim_bounds(s, a2, b2);
    lemma_trim_unique(s, a, b, a2, b2);
}

/// Whether a character is Unicode whitespace.
pub fn char_is_white_space(c: char) -> (b: bool)
    ensures
        b == is_white_space(c),
{
    let u = c as u32;
    (0x9 <= u && u <= 0xD) || u == 0x20 || u == 0x85 || u == 0xA0 || u == 0x1680 || (0x2000 <= u
        && u <= 0x200A) || u == 0x2028 || u == 0x2029 || u == 0x202F || u == 0x205F || u == 0x3000
}

/// `s` with leading and trailing whitespace removed (`str::trim`).
pub fn trim(s: &str) -> (t: &str)
    ensures
        t@ == trimmed(s@),
{
    let len = s.unicode_len();
    let mut a: usize = 0;
    while a < len && char_is_white_space(s.get_char(a))
        invariant
            a <= len,
            len == s@.len(),
            forall|i: int| 0 <= i < a ==> is_white_space(#[trigger] s@[i]),
        decreases len - a,
    {
        a = a + 1;
    }
    let mut b: usize = len;
    while b > a && char_is_white_space(s.get_char(b - 1))
        invariant
            a <= b <= len,
            len == s@.len(),
            forall|i: int| 0 <= i < a ==> is_white_space(#[trigger] s@[i]),
            forall|i: int| b <= i < len ==> is_white_space(#[trigger] s@[i]),
            a < len ==> !is_white_space(s@[a as int]),
        decreases b,
    {
        b = b - 1;
    }
    proof {
        lemma_trimmed_is(s@, a as int, b as int);
    }
    s.substring_char(a, b)
}

/// Whether two strings hold the same characters.
pub fn same_text(a: &str, b: &str) -> (r: bool)
    ensures
        r == (a@ == b@),
{
    let n = a.unicode_len();
    if n != b.unicode_len() {
        return false;
    }
    let mut i: usize = 0;
    while i < n
        invariant
            i <= n,
            n == a@.len(),
            n == b@.len(),
            forall|k: int| 0 <= k < i ==> a@[k] == b@[k],
        decreases n - i,
    {
        if a.get_char(i) != b.get_char(i) {
            return false;
        }
        i = i + 1;
    }
    assert(a@ =~= b@);
    true
}

/// `needle` occurs in `hay` starting at position `i`.
pub open spec fn occurs_at(hay: Seq<char>, needle: Seq<char>, i: int) -> bool {
    0 <= i && i + needle.len() <= hay.len() && hay.subrange(i, i + needle.len()) == needle
}

/// `needle` occurs somewhere in `hay` (the empty needle always does).
pub open spec fn contains_text(hay: Seq<char>, needle: Seq<char>) -> bool {
    exists|i: int| #[trigger] occurs_at(hay, needle, i)
}

/// Whether `needle` occurs in `hay` at position `at`.
fn matches_at(hay: &str, needle: &str, at: usize, hay_len: usize, needle_len: usize) -> (r: bool)
    requires
        hay_len == hay@.len(),
        needle_len == needle@.len(),
        at + needle_len <= hay_len,
    ensures
        r == occurs_at(hay@, needle@, at as int),
{
    let mut k: usize = 0;
    while k < needle_len
        invariant
            k <= needle_len,
            hay_len == hay@.len(),
            needle_len == needle@.len(),
            at + needle_len <= hay_len,
            forall|j: int| 0 <= j < k ==> hay@[at + j] == needle@[j],
        decreases needle_len - k,
    {
        if hay.get_char(at + k) != needle.get_char(k) {
            assert(hay@.subrange(at as int, at + needle_len)[k as int] != needle@[k as int]);
            return false;
        }
        k = k + 1;
    }
    assert(hay@.subrange(at as int, at + needle_len) =~= needle@);
    true
}

/// Whether `needle` occurs anywhere in `hay` (`str::contains`).
pub fn contains(hay: &str, needle: &str) -> (r: bool)
    ensures
        r == contains_text(hay@, needle@),
{
    let hay_len = hay.unicode_len();
    let needle_len = needle.unicode_len();
    if needle_len > hay_len {
        assert forall|i: int| !#[trigger] occurs_at(hay@, needle@, i) by {
        }
        return false;
    }
    let last = hay_len - needle_len;
    let mut at: usize = 0;
    while at < last
        invariant
            hay_len == hay@.len(),
            needle_len == needle@.len(),
            last == hay_len - needle_len,
            at <= last,
            forall|i: int| 0 <= i < at ==> !#[trigger] occurs_at(hay@, needle@, i),
        decreases last - at,
    {
        if matches_at(hay, needle, at, hay_len, needle_len) {
            return true;
        }
        at = at + 1;
    }
    if matches_at(hay, needle, last, hay_len, needle_len) {
        return true;
    }
    assert forall|i: int| !#[trigger] occurs_at(hay@, needle@, i) by {
        if 0 <= i < at {
        }
    }
    false
}

/// What `str::to_lowercase` returns for a text: the full Unicode lowercase
/// mapping, character by character.
pub uninterp spec fn lowercase(s: Seq<char>) -> Seq<char>;

/// Calls `str::to_lowercase`; its result is a function of the text alone
/// (Unicode's locale-independent lowercase mapping), named [`lowercase`].
#[verifier::external_body]
fn to_lowercase(s: &str) -> (r: String)
    ensures
        r@ == lowercase(s@),
{
    s.to_lowercase()
}

/// Case-insensitive substring test: `want`, lowercased, occurs in `name`,
/// lowercased.
pub fn contains_ignoring_case(name: &str, want: &str) -> (r: bool)
    ensures
        r == contains_text(lowercase(name@), lowercase(want@)),
{
    let lname = to_lowercase(name);
    let lwant = to_lowercase(want);
    contains(lname.as_str(), lwant.as_str())
}

/// The decimal digit character for `d < 10`.
pub open spec fn digit_char(d: int) -> char {
    (48 + d) as char
}

/// Decimal rendering of a natural number, most significant digit first.
pub open spec fn decimal(n: nat) -> Seq<char>
    decreases n,
{
    if n < 10 {
        seq![digit_char(n as int)]
    } else {
        decimal(n / 10) + seq![digit_char((n % 10) as int)]
    }
}

/// A one-character text holding decimal digit `d`.
fn digit_text(d: u32) -> (t: &'static str)
    requires
        d < 10,
    ensures
        t@ == seq![digit_char(d as int)],
{
    proof {
        reveal_strlit("0");
        reveal_strlit("1");
        reveal_strlit("2");
        reveal_strlit("3");
        reveal_strlit("4");
        reveal_strlit("5");
        reveal_strlit("6");
        reveal_strlit("7");
        reveal_strlit("8");
        reveal_strlit("9");
    }
    let t = if d == 0 {
        "0"
    } else if d == 1 {
        "1"
    } else if d == 2 {
        "2"
    } else if d == 3 {
        "3"
    } else if d == 4 {
        "4"
    } else if d == 5 {
        "5"
    } else if d == 6 {
        "6"
    } else if d == 7 {
        "7"
    } else if d == 8 {
        "8"
    } else {
        "9"
    };
    assert(t@ =~= seq![digit_char(d as int)]);
    t
}

/// Append the decimal rendering of `n` to `s`.
pub fn push_decimal(s: &mut String, n: u64)
    ensures
        final(s)@ == old(s)@ + decimal(n as nat),
    decreases n,
{
    if n >= 10 {
        push_decimal(s, n / 10);
    }
    let d = (n % 10) as u32;
    s.append(digit_text(d));
    proof {
        if n >= 10 {
            assert(decimal(n as nat) == decimal((n / 10) as nat) + seq![digit_char((n % 10) as int)]);
        } else {
            assert(decimal(n as nat) == seq![digit_char(n as int)]);
        }
    }
}

/// Strict lexicographic order on texts by code point (which is the byte
/// order of their UTF-8 encodings).
pub open spec fn text_lt(a: Seq<char>, b: Seq<char>) -> bool
    decreases a.len(),
{
    if a.len() == 0 {
        b.len() > 0
    } else if b.len() == 0 {
        false
    } else if a[0] != b[0] {
        (a[0] as int) < (b[0] as int)
    } else {
        text_lt(a.drop_first(), b.drop_first())
    }
}

/// [`text_lt`] is transitive.
pub proof fn lemma_text_lt_transitive(a: Seq<char>, b: Seq<char>, c: Seq<char>)
    requires
        text_lt(a, b),
        text_lt(b, c),
    ensures
        text_lt(a, c),
    decreases a.len(),
{
    if a.len() > 0 && b.len() > 0 && c.len() > 0 && a[0] == b[0] && b[0] == c[0] {
        lemma_text_lt_transitive(a.drop_first(), b.drop_first(), c.drop_first());
    }
}

/// [`text_lt`] is irreflexive.
pub proof fn lemma_text_lt_irreflexive(a: Seq<char>)
    ensures
        !text_lt(a, a),
    decreases a.len(),
{
    if a.len() > 0 {
        lemma_text_lt_irreflexive(a.drop_first());
    }
}

/// [`text_lt`] is total on distinct texts.
pub proof fn lemma_text_lt_total(a: Seq<char>, b: Seq<char>)
    ensures
        a == b || text_lt(a, b) || text_lt(b, a),
    decreases a.len(),
{
    if a.len() > 0 && b.len() > 0 && a[0] == b[0] {
        lemma_text_lt_total(a.drop_first(), b.drop_first());
        if a.drop_first() == b.drop_first() {
            assert(a =~= seq![a[0]] + a.drop_first());
            assert(b =~= seq![b[0]] + b.drop_first());
            assert(a =~= b);
        }
    } else if a.len() == 0 && b.len() == 0 {
        assert(a =~= b);
    } else if a.len() > 0 && b.len() > 0 {
        assert((a[0] as int) != (b[0] as int));
    }
}

/// Comparing from position `k` on decides the order once the first `k`
/// characters agree.
proof fn lemma_text_lt_skip(a: Seq<char>, b: Seq<char>, k: int)
    requires
        0 <= k < a.len(),
        k < b.len(),
        a[k] == b[k],
    ensures
        text_lt(a.skip(k), b.skip(k)) == text_lt(a.skip(k + 1), b.skip(k + 1)),
{
    assert(a.skip(k).drop_first() =~= a.skip(k + 1));
    assert(b.skip(k).drop_first() =~= b.skip(k + 1));
}

/// Whether `a` sorts strictly before `b` (code-point lexicographic).
pub fn text_less(a: &str, b: &str) -> (r: bool)
    ensures
        r == text_lt(a@, b@),
{
    let na = a.unicode_len();
    let nb = b.unicode_len();
    let mut k: usize = 0;
    assert(a@.skip(0) =~= a@);
    assert(b@.skip(0) =~= b@);
    while k < na && k < nb
        invariant
            k <= na,
            k <= nb,
            na == a@.len(),
            nb == b@.len(),
            text_lt(a@, b@) == text_lt(a@.skip(k as int), b@.skip(k as int)),
        decreases na - k,
    {
        let ca = a.get_char(k);
        let cb = b.get_char(k);
        if ca != cb {
            assert(a@.skip(k as int)[0] == ca);
            assert(b@.skip(k as int)[0] == cb);
            return (ca as u32) < (cb as u32);
        }
        proof {
            lemma_text_lt_skip(a@, b@, k as int);
        }
        k = k + 1;
    }
    assert(a@.skip(k as int).len() == na - k);
    nb > k && na == k
}

/// Code-point order: after a common prefix, the first differing character
/// decides, the one with the smaller code point coming first (so `'0'`
/// before `'9'`, and zero-padded numbers in numeric order).
pub proof fn lemma_text_lt_first_difference(p: Seq<char>, a: char, b: char, x: Seq<char>, y: Seq<char>)
    requires
        a != b,
    ensures
        text_lt(p + seq![a] + x, p + seq![b] + y) == ((a as u32) < (b as u32)),
    decreases p.len(),
{
    let l = p + seq![a] + x;
    let r = p + seq![b] + y;
    if p.len() == 0 {
        assert(l[0] == a);
        assert(r[0] == b);
    } else {
        assert(l[0] == p[0]);
        assert(r[0] == p[0]);
        assert(l.drop_first() =~= p.drop_first() + seq![a] + x);
        assert(r.drop_first() =~= p.drop_first() + seq![b] + y);
        lemma_text_lt_first_difference(p.drop_first(), a, b, x, y);
    }
}

/// A proper prefix comes before every text it starts.
pub proof fn lemma_proper_prefix_first(p: Seq<char>, c: char, x: Seq<char>)
    ensures
        text_lt(p, p + seq![c] + x),
        !text_lt(p + seq![c] + x, p),
    decreases p.len(),
{
    let l = p + seq![c] + x;
    if p.len() > 0 {
        assert(l[0] == p[0]);
        assert(l.drop_first() =~= p.drop_first() + seq![c] + x);
        lemma_proper_prefix_first(p.drop_first(), c, x);
    }
}

} // verus!
