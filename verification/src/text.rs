//! Character-level text helpers shared by the parsers: whitespace, trimming,
//! searching, and the conversions between strings, characters and bytes.

use vstd::prelude::*;
use vstd::utf8::*;

verus! {

broadcast use vstd::seq::group_seq_axioms;

// ---------------------------------------------------------------------------
// Models
// ---------------------------------------------------------------------------

/// Unicode `White_Space` property (PropList.txt), the set `char::is_whitespace`
/// and `str::trim` / `str::split_whitespace` go by.
pub open spec fn is_white_space(c: char) -> bool {
    ||| ('\u{9}' <= c && c <= '\u{d}')
    ||| c == ' '
    ||| c == '\u{85}'
    ||| c == '\u{a0}'
    ||| c == '\u{1680}'
    ||| ('\u{2000}' <= c && c <= '\u{200a}')
    ||| c == '\u{2028}'
    ||| c == '\u{2029}'
    ||| c == '\u{202f}'
    ||| c == '\u{205f}'
    ||| c == '\u{3000}'
}

/// Which characters a trim removes.
#[derive(Clone, Copy, Debug, PartialEq, Eq)]
pub enum TrimSet {
    /// Every `White_Space` character (as `str::trim`).
    Whitespace,
    /// Exactly this character (as `str::trim_matches(c)`).
    Only(char),
}

pub open spec fn in_trim_set(t: TrimSet, c: char) -> bool {
    match t {
        TrimSet::Whitespace => is_white_space(c),
        TrimSet::Only(x) => c == x,
    }
}

pub open spec fn trim_start_by(s: Seq<char>, t: TrimSet) -> Seq<char>
    decreases s.len(),
{
    if s.len() > 0 && in_trim_set(t, s[0]) {
        trim_start_by(s.drop_first(), t)
    } else {
        s
    }
}

pub open spec fn trim_end_by(s: Seq<char>, t: TrimSet) -> Seq<char>
    decreases s.len(),
{
    if s.len() > 0 && in_trim_set(t, s.last()) {
        trim_end_by(s.drop_last(), t)
    } else {
        s
    }
}

/// `s` without the leading and trailing characters of the set `t`.
pub open spec fn trim_by(s: Seq<char>, t: TrimSet) -> Seq<char> {
    trim_end_by(trim_start_by(s, t), t)
}

/// `s` without leading and trailing whitespace (`str::trim`).
pub open spec fn trim(s: Seq<char>) -> Seq<char> {
    trim_by(s, TrimSet::Whitespace)
}

/// `needle` occurs in `hay` starting at position `i`.
pub open spec fn occurs_at<T>(hay: Seq<T>, needle: Seq<T>, i: int) -> bool {
    &&& 0 <= i
    &&& i + needle.len() <= hay.len()
    &&& hay.subrange(i, i + needle.len()) =~= needle
}

/// `needle` occurs somewhere in `hay` (`str::contains`).
pub open spec fn contains_seq<T>(hay: Seq<T>, needle: Seq<T>) -> bool {
    exists|i: int| occurs_at(hay, needle, i)
}

/// `hay` begins with `prefix` (`str::starts_with`).
pub open spec fn starts_with_seq<T>(hay: Seq<T>, prefix: Seq<T>) -> bool {
    occurs_at(hay, prefix, 0)
}

/// The texts `f(x)` for each `x` of `s`, one after the other.
pub open spec fn concat_map<T>(s: Seq<T>, f: spec_fn(T) -> Seq<char>) -> Seq<char>
    decreases s.len(),
{
    if s.len() == 0 {
        Seq::empty()
    } else {
        concat_map(s.drop_last(), f) + f(s.last())
    }
}

/// One more element adds its text at the end.
pub proof fn lemma_concat_map_step<T>(s: Seq<T>, f: spec_fn(T) -> Seq<char>, i: int)
    requires
        0 <= i < s.len(),
    ensures
        concat_map(s.subrange(0, i + 1), f) == concat_map(s.subrange(0, i), f) + f(s[i]),
{
    assert(s.subrange(0, i + 1).drop_last() =~= s.subrange(0, i));
}

/// The text of element `i` stands in `concat_map(s, f)` right after the
/// texts of the elements before it, and before the texts of those after it.
pub proof fn lemma_concat_map_entry<T>(s: Seq<T>, f: spec_fn(T) -> Seq<char>, i: int)
    requires
        0 <= i < s.len(),
    ensures
        occurs_at(concat_map(s, f), f(s[i]), concat_map(s.take(i), f).len() as int),
        forall|j: int|
            i < j <= s.len() ==> concat_map(s.take(i), f).len() + f(s[i]).len() <= #[trigger] concat_map(
                s.take(j),
                f,
            ).len(),
    decreases s.len(),
{
    let n = s.len() - 1;
    assert(s.take(n) =~= s.drop_last());
    assert(s.take(s.len() as int) =~= s);
    if i == n {
        assert(concat_map(s, f) =~= concat_map(s.take(i), f) + f(s[i]));
        let k = concat_map(s.take(i), f).len() as int;
        assert(concat_map(s, f).subrange(k, k + f(s[i]).len()) =~= f(s[i]));
    } else {
        let d = s.drop_last();
        lemma_concat_map_entry(d, f, i);
        assert(d.take(i) =~= s.take(i));
        assert(d[i] == s[i]);
        let a = concat_map(d, f);
        let k = concat_map(s.take(i), f).len() as int;
        assert(concat_map(s, f) =~= a + f(s.last()));
        assert(concat_map(s, f).subrange(k, k + f(s[i]).len()) =~= a.subrange(k, k + f(s[i]).len()));
        assert forall|j: int| i < j <= s.len() implies concat_map(s.take(i), f).len() + f(
            s[i],
        ).len() <= #[trigger] concat_map(s.take(j), f).len() by {
            if j <= n {
                assert(d.take(j) =~= s.take(j));
            } else {
                assert(concat_map(s.take(j), f) == concat_map(s, f));
            }
        }
    }
}

/// The character of decimal digit `d`.
pub open spec fn digit_char(d: nat) -> char {
    ((48 + d) as u8) as char
}

/// Decimal representation of a natural number, without leading zeros.
pub open spec fn decimal(n: nat) -> Seq<char>
    decreases n,
{
    if n < 10 {
        seq![digit_char(n)]
    } else {
        decimal(n / 10).push(digit_char(n % 10))
    }
}

/// Decimal representation of an integer, with `-` before negative ones
/// (as `Display` for the integer types writes it).
pub open spec fn signed_decimal(x: int) -> Seq<char> {
    if x < 0 {
        seq!['-'] + decimal((-x) as nat)
    } else {
        decimal(x as nat)
    }
}

// ---------------------------------------------------------------------------
// Trusted calls into std
// ---------------------------------------------------------------------------

/// What `String::from_utf8_lossy` makes of a byte sequence.
pub uninterp spec fn utf8_lossy(bytes: Seq<u8>) -> Seq<char>;

/// Calls `String::from_utf8_lossy`. Its documentation promises that valid
/// UTF-8 comes back unchanged; for other input the replacement of invalid
/// sequences by U+FFFD is named by `utf8_lossy` and not spelled out.
#[verifier::external_body]
pub(crate) fn decode_utf8_lossy(bytes: &[u8]) -> (text: String)
    ensures
        text@ == utf8_lossy(bytes@),
        valid_utf8(bytes@) ==> text@ == decode_utf8(bytes@),
{
    String::from_utf8_lossy(bytes).into_owned()
}

/// `String::push` appends one character to the string.
pub assume_specification[ String::push ](s: &mut String, ch: char)
    ensures
        final(s)@ == old(s)@.push(ch),
;

/// What `str::to_lowercase` makes of a character sequence.
pub uninterp spec fn unicode_lowercase(s: Seq<char>) -> Seq<char>;

/// ASCII lower-casing of one character.
pub open spec fn ascii_lower(c: char) -> char {
    if 'A' <= c && c <= 'Z' {
        ((c as u32) + 32) as char
    } else {
        c
    }
}

/// Calls `str::to_lowercase`. Its result is named by `unicode_lowercase`
/// (the Unicode `Lowercase` mapping, which takes tables to state). Two facts
/// of that mapping are stated: on ASCII text it lowers `A`..`Z` and leaves
/// every other character alone, and no character's lower-case form holds
/// an ASCII capital, so the result holds none.
#[verifier::external_body]
pub(crate) fn to_lowercase(s: &str) -> (r: String)
    ensures
        r@ == unicode_lowercase(s@),
        is_ascii_chars(s@) ==> r@ == s@.map_values(|c: char| ascii_lower(c)),
        forall|i: int| 0 <= i < r@.len() ==> !('A' <= #[trigger] r@[i] && r@[i] <= 'Z'),
{
    s.to_lowercase()
}

/// Whether `char::is_alphanumeric` holds of a character.
pub uninterp spec fn unicode_alphanumeric(c: char) -> bool;

/// Calls `char::is_alphanumeric` (Unicode `Alphabetic` or `Numeric`); the
/// answer is named by `unicode_alphanumeric`. Stated is its ASCII part: an
/// ASCII character is alphanumeric exactly when it is a letter or a digit.
#[verifier::external_body]
pub(crate) fn is_alphanumeric(c: char) -> (r: bool)
    ensures
        r == unicode_alphanumeric(c),
        c <= '\u{7f}' ==> r == (('a' <= c && c <= 'z') || ('A' <= c && c <= 'Z') || ('0' <= c
            && c <= '9')),
{
    c.is_alphanumeric()
}

// ---------------------------------------------------------------------------
// Verified helpers
// ---------------------------------------------------------------------------

/// Whether `c` is whitespace (`char::is_whitespace`).
pub fn is_whitespace(c: char) -> (r: bool)
    ensures
        r == is_white_space(c),
{
    ('\u{9}' <= c && c <= '\u{d}') || c == ' ' || c == '\u{85}' || c == '\u{a0}' || c
        == '\u{1680}' || ('\u{2000}' <= c && c <= '\u{200a}') || c == '\u{2028}' || c
        == '\u{2029}' || c == '\u{202f}' || c == '\u{205f}' || c == '\u{3000}'
}

pub fn in_set(t: TrimSet, c: char) -> (r: bool)
    ensures
        r == in_trim_set(t, c),
{
    match t {
        TrimSet::Whitespace => is_whitespace(c),
        TrimSet::Only(x) => c == x,
    }
}

/// The characters of a string slice, in order.
pub fn chars_of(s: &str) -> (cs: Vec<char>)
    ensures
        cs@ == s@,
{
    let n: usize = s.unicode_len();
    let mut cs: Vec<char> = Vec::new();
    let mut i: usize = 0;
    while i < n
        invariant
            n == s@.len(),
            i <= n,
            cs@ == s@.subrange(0, i as int),
        decreases n - i,
    {
        let c = s.get_char(i);
        cs.push(c);
        i = i + 1;
    }
    cs
}

proof fn lemma_trim_start(s: Seq<char>, t: TrimSet, a: int)
    requires
        0 <= a <= s.len(),
        forall|i: int| 0 <= i < a ==> in_trim_set(t, #[trigger] s[i]),
        a < s.len() ==> !in_trim_set(t, s[a]),
    ensures
        trim_start_by(s, t) == s.subrange(a, s.len() as int),
    decreases a,
{
    if a == 0 {
        assert(s.subrange(0, s.len() as int) =~= s);
    } else {
        assert(in_trim_set(t, s[0]));
        let r = s.drop_first();
        assert forall|i: int| 0 <= i < a - 1 implies in_trim_set(t, #[trigger] r[i]) by {
            assert(r[i] == s[i + 1]);
        }
        lemma_trim_start(r, t, a - 1);
        assert(r.subrange(a - 1, r.len() as int) =~= s.subrange(a, s.len() as int));
    }
}

proof fn lemma_trim_end(s: Seq<char>, t: TrimSet, b: int)
    requires
        0 <= b <= s.len(),
        forall|i: int| b <= i < s.len() ==> in_trim_set(t, #[trigger] s[i]),
        b > 0 ==> !in_trim_set(t, s[b - 1]),
    ensures
        trim_end_by(s, t) == s.subrange(0, b),
    decreases s.len() - b,
{
    if b == s.len() {
        if s.len() > 0 {
            assert(s.last() == s[b - 1]);
        }
        assert(s.subrange(0, b) =~= s);
    } else {
        assert(in_trim_set(t, s.last()));
        let r = s.drop_last();
        assert forall|i: int| b <= i < r.len() implies in_trim_set(t, #[trigger] r[i]) by {
            assert(r[i] == s[i]);
        }
        lemma_trim_end(r, t, b);
        assert(r.subrange(0, b) =~= s.subrange(0, b));
    }
}

proof fn lemma_trim_start_keeps(s: Seq<char>, t: TrimSet, p: spec_fn(char) -> bool)
    requires
        forall|i: int| 0 <= i < s.len() ==> p(#[trigger] s[i]),
    ensures
        forall|i: int|
            0 <= i < trim_start_by(s, t).len() ==> p(#[trigger] trim_start_by(s, t)[i]),
    decreases s.len(),
{
    if s.len() > 0 && in_trim_set(t, s[0]) {
        let r = s.drop_first();
        assert forall|i: int| 0 <= i < r.len() implies p(#[trigger] r[i]) by {
            assert(r[i] == s[i + 1]);
        }
        lemma_trim_start_keeps(r, t, p);
        assert(trim_start_by(s, t) == trim_start_by(r, t));
    } else {
        assert(trim_start_by(s, t) == s);
    }
}

proof fn lemma_trim_end_keeps(s: Seq<char>, t: TrimSet, p: spec_fn(char) -> bool)
    requires
        forall|i: int| 0 <= i < s.len() ==> p(#[trigger] s[i]),
    ensures
        forall|i: int| 0 <= i < trim_end_by(s, t).len() ==> p(#[trigger] trim_end_by(s, t)[i]),
    decreases s.len(),
{
    if s.len() > 0 && in_trim_set(t, s.last()) {
        let r = s.drop_last();
        assert forall|i: int| 0 <= i < r.len() implies p(#[trigger] r[i]) by {
            assert(r[i] == s[i]);
        }
        lemma_trim_end_keeps(r, t, p);
        assert(trim_end_by(s, t) == trim_end_by(r, t));
    } else {
        assert(trim_end_by(s, t) == s);
    }
}

/// Trimming keeps any property that every character of the text has.
pub proof fn lemma_trim_keeps(s: Seq<char>, t: TrimSet, p: spec_fn(char) -> bool)
    requires
        forall|i: int| 0 <= i < s.len() ==> p(#[trigger] s[i]),
    ensures
        forall|i: int| 0 <= i < trim_by(s, t).len() ==> p(#[trigger] trim_by(s, t)[i]),
{
    lemma_trim_start_keeps(s, t, p);
    lemma_trim_end_keeps(trim_start_by(s, t), t, p);
}

proof fn lemma_trim_start_edge(s: Seq<char>, t: TrimSet)
    ensures
        trim_start_by(s, t).len() > 0 ==> !in_trim_set(t, trim_start_by(s, t)[0]),
    decreases s.len(),
{
    if s.len() > 0 && in_trim_set(t, s[0]) {
        lemma_trim_start_edge(s.drop_first(), t);
    }
}

proof fn lemma_trim_end_edge(s: Seq<char>, t: TrimSet)
    ensures
        trim_end_by(s, t).len() <= s.len(),
        trim_end_by(s, t) == s.subrange(0, trim_end_by(s, t).len() as int),
        trim_end_by(s, t).len() > 0 ==> !in_trim_set(t, trim_end_by(s, t).last()),
        s.len() > 0 && !in_trim_set(t, s[0]) ==> trim_end_by(s, t).len() > 0,
    decreases s.len(),
{
    if s.len() > 0 && in_trim_set(t, s.last()) {
        lemma_trim_end_edge(s.drop_last(), t);
        let r = trim_end_by(s.drop_last(), t);
        assert(s.drop_last().subrange(0, r.len() as int) =~= s.subrange(0, r.len() as int));
    } else {
        assert(s.subrange(0, s.len() as int) =~= s);
    }
}

/// A trimmed text neither starts nor ends with a character of the set.
pub proof fn lemma_trim_edges(s: Seq<char>, t: TrimSet)
    ensures
        trim_by(s, t).len() > 0 ==> !in_trim_set(t, trim_by(s, t)[0]) && !in_trim_set(
            t,
            trim_by(s, t).last(),
        ),
{
    let a = trim_start_by(s, t);
    lemma_trim_start_edge(s, t);
    lemma_trim_end_edge(a, t);
    let r = trim_end_by(a, t);
    if r.len() > 0 {
        assert(r[0] == a[0]);
    }
}

/// Trimming a text that neither starts nor ends with a character of the
/// set leaves it unchanged; in particular trimming twice is trimming once.
pub proof fn lemma_trim_idempotent(s: Seq<char>, t: TrimSet)
    ensures
        (s.len() == 0 || (!in_trim_set(t, s[0]) && !in_trim_set(t, s.last()))) ==> trim_by(s, t)
            == s,
        trim_by(trim_by(s, t), t) == trim_by(s, t),
{
    lemma_trim_edges(s, t);
    let r = trim_by(s, t);
    if r.len() > 0 {
        assert(trim_start_by(r, t) == r);
        assert(trim_end_by(r, t) == r);
    } else {
        assert(trim_start_by(r, t) == r);
        assert(trim_end_by(r, t) == r);
    }
    if s.len() > 0 && !in_trim_set(t, s[0]) && !in_trim_set(t, s.last()) {
        assert(trim_start_by(s, t) == s);
        assert(trim_end_by(s, t) == s);
    }
}

/// First position at or after `i` whose character is not in the set.
pub open spec fn first_kept(s: Seq<char>, t: TrimSet, i: int) -> int
    decreases s.len() - i,
{
    if i < 0 || i >= s.len() {
        s.len() as int
    } else if !in_trim_set(t, s[i]) {
        i
    } else {
        first_kept(s, t, i + 1)
    }
}

/// End of the last character before position `j` that is not in the set.
pub open spec fn end_kept(s: Seq<char>, t: TrimSet, j: int) -> int
    decreases j,
{
    if j <= 0 {
        0
    } else if !in_trim_set(t, s[j - 1]) {
        j
    } else {
        end_kept(s, t, j - 1)
    }
}

proof fn lemma_first_kept(s: Seq<char>, t: TrimSet, i: int)
    requires
        0 <= i <= s.len(),
    ensures
        i <= first_kept(s, t, i) <= s.len(),
        forall|k: int| i <= k < first_kept(s, t, i) ==> in_trim_set(t, #[trigger] s[k]),
        first_kept(s, t, i) < s.len() ==> !in_trim_set(t, s[first_kept(s, t, i)]),
    decreases s.len() - i,
{
    if i < s.len() && in_trim_set(t, s[i]) {
        lemma_first_kept(s, t, i + 1);
    }
}

proof fn lemma_end_kept(s: Seq<char>, t: TrimSet, j: int)
    requires
        0 <= j <= s.len(),
    ensures
        0 <= end_kept(s, t, j) <= j,
        forall|k: int| end_kept(s, t, j) <= k < j ==> in_trim_set(t, #[trigger] s[k]),
        end_kept(s, t, j) > 0 ==> !in_trim_set(t, s[end_kept(s, t, j) - 1]),
    decreases j,
{
    if j > 0 && in_trim_set(t, s[j - 1]) {
        lemma_end_kept(s, t, j - 1);
    }
}

/// Where the trimmed text lies: `trim_by(s, t)` is `s[a..b]`, everything
/// before `a` and from `b` on is in the set, and the ends of a non-empty
/// trimmed text are not.
pub proof fn lemma_trim_window(s: Seq<char>, t: TrimSet) -> (w: (int, int))
    ensures
        0 <= w.0 <= w.1 <= s.len(),
        trim_by(s, t) == s.subrange(w.0, w.1),
        forall|k: int| 0 <= k < w.0 ==> in_trim_set(t, #[trigger] s[k]),
        forall|k: int| w.1 <= k < s.len() ==> in_trim_set(t, #[trigger] s[k]),
        w.0 < w.1 ==> !in_trim_set(t, s[w.0]) && !in_trim_set(t, s[w.1 - 1]),
        w.0 == first_kept(s, t, 0),
        w.0 < s.len() ==> w.1 == end_kept(s, t, s.len() as int),
        w.0 == s.len() ==> w.1 == w.0,
        w.0 < s.len() ==> w.0 < w.1,
{
    let a = first_kept(s, t, 0);
    lemma_first_kept(s, t, 0);
    lemma_trim_start(s, t, a);
    let mid = s.subrange(a, s.len() as int);
    if a == s.len() {
        assert(mid.len() == 0);
        assert(trim_end_by(mid, t) == mid);
        (a, a)
    } else {
        let e = end_kept(s, t, s.len() as int);
        lemma_end_kept(s, t, s.len() as int);
        if e <= a {
            assert(in_trim_set(t, s[a]));
        }
        assert forall|k: int| e - a <= k < mid.len() implies in_trim_set(t, #[trigger] mid[k]) by {
            assert(mid[k] == s[k + a]);
        }
        assert(mid[e - a - 1] == s[e - 1]);
        lemma_trim_end(mid, t, e - a);
        assert(mid.subrange(0, e - a) =~= s.subrange(a, e));
        (a, e)
    }
}

/// Texts whose characters are in the set at the same positions are
/// trimmed at the same positions.
pub proof fn lemma_same_trim_positions(x: Seq<char>, y: Seq<char>, t: TrimSet)
    requires
        x.len() == y.len(),
        forall|k: int| 0 <= k < x.len() ==> in_trim_set(t, #[trigger] x[k]) == in_trim_set(t, y[k]),
    ensures
        first_kept(x, t, 0) == first_kept(y, t, 0),
        end_kept(x, t, x.len() as int) == end_kept(y, t, y.len() as int),
{
    lemma_same_first_kept(x, y, t, 0);
    lemma_same_end_kept(x, y, t, x.len() as int);
}

proof fn lemma_same_first_kept(x: Seq<char>, y: Seq<char>, t: TrimSet, i: int)
    requires
        x.len() == y.len(),
        forall|k: int| 0 <= k < x.len() ==> in_trim_set(t, #[trigger] x[k]) == in_trim_set(t, y[k]),
    ensures
        first_kept(x, t, i) == first_kept(y, t, i),
    decreases x.len() - i,
{
    if 0 <= i < x.len() && in_trim_set(t, x[i]) {
        lemma_same_first_kept(x, y, t, i + 1);
    }
}

proof fn lemma_same_end_kept(x: Seq<char>, y: Seq<char>, t: TrimSet, j: int)
    requires
        x.len() == y.len(),
        j <= x.len(),
        forall|k: int| 0 <= k < x.len() ==> in_trim_set(t, #[trigger] x[k]) == in_trim_set(t, y[k]),
    ensures
        end_kept(x, t, j) == end_kept(y, t, j),
    decreases j,
{
    if j > 0 && in_trim_set(t, x[j - 1]) {
        lemma_same_end_kept(x, y, t, j - 1);
    }
}

/// `s` without leading and trailing characters of the set `t`.
pub fn trim_chars(s: &[char], t: TrimSet) -> (r: Vec<char>)
    ensures
        r@ == trim_by(s@, t),
{
    let n: usize = s.len();
    let mut a: usize = 0;
    while a < n && in_set(t, s[a])
        invariant
            n == s@.len(),
            a <= n,
            forall|i: int| 0 <= i < a ==> in_trim_set(t, #[trigger] s@[i]),
        decreases n - a,
    {
        a = a + 1;
    }
    proof {
        lemma_trim_start(s@, t, a as int);
    }
    let ghost mid = s@.subrange(a as int, n as int);
    let mut b: usize = n;
    while b > a && in_set(t, s[b - 1])
        invariant
            n == s@.len(),
            a <= b <= n,
            forall|i: int| b <= i < n ==> in_trim_set(t, #[trigger] s@[i]),
        decreases b,
    {
        b = b - 1;
    }
    proof {
        assert forall|i: int| b - a <= i < mid.len() implies in_trim_set(t, #[trigger] mid[i]) by {
            assert(mid[i] == s@[i + a]);
        }
        if b > a {
            assert(mid[b - a - 1] == s@[b - 1]);
        }
        lemma_trim_end(mid, t, (b - a) as int);
    }
    let mut r: Vec<char> = Vec::new();
    let mut k: usize = a;
    while k < b
        invariant
            n == s@.len(),
            a <= k <= b <= n,
            r@ == s@.subrange(a as int, k as int),
        decreases b - k,
    {
        r.push(s[k]);
        k = k + 1;
    }
    proof {
        assert(r@ =~= mid.subrange(0, (b - a) as int));
    }
    r
}

/// Whether `needle` occurs in `hay` at position `i`.
pub fn chars_occur_at(hay: &[char], needle: &[char], i: usize) -> (r: bool)
    ensures
        r == occurs_at(hay@, needle@, i as int),
{
    if i > hay.len() || needle.len() > hay.len() - i {
        return false;
    }
    let mut k: usize = 0;
    while k < needle.len()
        invariant
            i + needle.len() <= hay.len(),
            i + needle@.len() <= hay@.len(),
            k <= needle@.len(),
            forall|j: int| 0 <= j < k ==> hay@[i + j] == needle@[j],
        decreases needle@.len() - k,
    {
        if hay[i + k] != needle[k] {
            proof {
                assert(hay@.subrange(i as int, i + needle@.len())[k as int] == hay@[i + k]);
            }
            return false;
        }
        k = k + 1;
    }
    proof {
        assert(hay@.subrange(i as int, i + needle@.len()) =~= needle@);
    }
    true
}

/// Whether `needle` occurs anywhere in `hay`.
pub fn chars_contain(hay: &[char], needle: &[char]) -> (r: bool)
    ensures
        r == contains_seq(hay@, needle@),
{
    if needle.len() > hay.len() {
        proof {
            assert forall|i: int| !occurs_at(hay@, needle@, i) by {}
        }
        return false;
    }
    let last: usize = hay.len() - needle.len();
    let mut i: usize = 0;
    loop
        invariant
            last == hay@.len() - needle@.len(),
            i <= last,
            forall|j: int| 0 <= j < i ==> !occurs_at(hay@, needle@, j),
        decreases last - i,
    {
        if chars_occur_at(hay, needle, i) {
            return true;
        }
        if i == last {
            proof {
                assert forall|j: int| !occurs_at(hay@, needle@, j) by {
                    if 0 <= j < i {
                    }
                }
            }
            return false;
        }
        i = i + 1;
    }
}

/// Whether the text `hay` contains the string `needle`.
pub fn contains_str(hay: &[char], needle: &str) -> (r: bool)
    ensures
        r == contains_seq(hay@, needle@),
{
    let n = chars_of(needle);
    chars_contain(hay, n.as_slice())
}

/// Whether the text `hay` begins with the string `prefix`.
pub fn starts_with_str(hay: &[char], prefix: &str) -> (r: bool)
    ensures
        r == starts_with_seq(hay@, prefix@),
{
    let p = chars_of(prefix);
    chars_occur_at(hay, p.as_slice(), 0)
}

/// Whether two texts are equal.
pub fn chars_equal(a: &[char], b: &[char]) -> (r: bool)
    ensures
        r == (a@ == b@),
{
    if a.len() != b.len() {
        return false;
    }
    let r = chars_occur_at(a, b, 0);
    proof {
        assert(a@.subrange(0, a@.len() as int) =~= a@);
    }
    r
}

/// Whether the text `s` is exactly the string `lit`.
pub fn chars_eq_str(s: &[char], lit: &str) -> (r: bool)
    ensures
        r == (s@ == lit@),
{
    let l = chars_of(lit);
    if s.len() != l.len() {
        return false;
    }
    let b = chars_occur_at(s, l.as_slice(), 0);
    proof {
        if b {
            assert(s@.subrange(0, s@.len() as int) =~= s@);
        } else {
            assert(s@.subrange(0, s@.len() as int) =~= s@);
        }
    }
    b
}

/// The characters `s[from..to]`.
pub fn slice_chars(s: &[char], from: usize, to: usize) -> (r: Vec<char>)
    requires
        from <= to <= s@.len(),
    ensures
        r@ == s@.subrange(from as int, to as int),
{
    let mut r: Vec<char> = Vec::new();
    let mut k: usize = from;
    while k < to
        invariant
            from <= k <= to <= s@.len(),
            r@ == s@.subrange(from as int, k as int),
        decreases to - k,
    {
        r.push(s[k]);
        k = k + 1;
    }
    r
}

/// Appends the characters of `lit` to `out`.
pub fn push_str(out: &mut Vec<char>, lit: &str)
    ensures
        final(out)@ == old(out)@ + lit@,
{
    let cs = chars_of(lit);
    let mut k: usize = 0;
    while k < cs.len()
        invariant
            cs@ == lit@,
            k <= cs@.len(),
            out@ == old(out)@ + lit@.subrange(0, k as int),
        decreases cs@.len() - k,
    {
        out.push(cs[k]);
        k = k + 1;
    }
    proof {
        assert(lit@.subrange(0, lit@.len() as int) =~= lit@);
    }
}

/// A string holding exactly the characters `cs`, in order.
pub fn string_from_chars(cs: &[char]) -> (s: String)
    ensures
        s@ == cs@,
{
    let mut s = String::new();
    let mut i: usize = 0;
    while i < cs.len()
        invariant
            i <= cs@.len(),
            s@ == cs@.subrange(0, i as int),
        decreases cs@.len() - i,
    {
        s.push(cs[i]);
        i = i + 1;
    }
    proof {
        assert(cs@.subrange(0, cs@.len() as int) =~= cs@);
    }
    s
}

/// The UTF-8 bytes of one character.
pub fn encode_char_utf8(c: char) -> (bytes: Vec<u8>)
    ensures
        bytes@ == encode_utf8(seq![c]),
{
    let v = c as u32;
    let mut b: Vec<u8> = Vec::new();
    if v <= 0x7F {
        b.push((v & 0x7F) as u8);
    } else if v <= 0x7FF {
        b.push(0xC0 | ((v >> 6) & 0x1F) as u8);
        b.push(0x80 | (v & 0x3F) as u8);
    } else if v <= 0xFFFF && !(0xD800 <= v && v <= 0xDFFF) {
        b.push(0xE0 | ((v >> 12) & 0x0F) as u8);
        b.push(0x80 | ((v >> 6) & 0x3F) as u8);
        b.push(0x80 | (v & 0x3F) as u8);
    } else {
        b.push(0xF0 | ((v >> 18) & 0x7) as u8);
        b.push(0x80 | ((v >> 12) & 0x3F) as u8);
        b.push(0x80 | ((v >> 6) & 0x3F) as u8);
        b.push(0x80 | (v & 0x3F) as u8);
    }
    proof {
        let one = seq![c];
        assert(one.drop_first() =~= Seq::<char>::empty());
        assert(encode_utf8(one.drop_first()) =~= Seq::<u8>::empty());
        assert(one[0] == c);
        assert(encode_utf8(one) == encode_scalar(v) + encode_utf8(one.drop_first()));
        assert(b@ =~= encode_scalar(v));
        assert(b@ =~= encode_utf8(one));
    }
    b
}

/// Appends the decimal digits of `n` to `out`.
pub fn push_decimal(out: &mut Vec<char>, n: u128)
    ensures
        final(out)@ == old(out)@ + decimal(n as nat),
    decreases n,
{
    if n >= 10 {
        push_decimal(out, n / 10);
    }
    let d: u8 = (n % 10) as u8;
    out.push((48u8 + d) as char);
    proof {
        if n < 10 {
            assert(out@ =~= old(out)@ + decimal(n as nat));
        } else {
            assert(out@ =~= old(out)@ + decimal(n as nat));
        }
    }
}

/// Appends the decimal representation of `x` to `out`.
pub fn push_int(out: &mut Vec<char>, x: i64)
    ensures
        final(out)@ == old(out)@ + signed_decimal(x as int),
{
    if x < 0 {
        out.push('-');
        let m: i128 = 0 - (x as i128);
        push_decimal(out, m as u128);
        proof {
            assert(out@ =~= old(out)@ + signed_decimal(x as int));
        }
    } else {
        push_decimal(out, x as u128);
    }
}

} // verus!
