//! Detection of command boundaries in the shell's output.
//!
//! The shell hook prints `ESC ] 1337 ; GhostExit = <code> BEL` after every
//! command. The parser accumulates decoded output text, reports the exit code
//! once a complete marker has arrived, and otherwise keeps its buffer bounded.

use vstd::prelude::*;
use vstd::utf8::*;

use crate::text::{decode_utf8_lossy, occurs_at, utf8_lossy};

verus! {

broadcast use vstd::seq::group_seq_axioms;

/// Bytes of the marker prefix `ESC ] 1337 ; GhostExit =`.
pub open spec fn exit_marker() -> Seq<u8> {
    seq![
        0x1bu8, 0x5du8, 0x31u8, 0x33u8, 0x33u8, 0x37u8, 0x3bu8, 0x47u8, 0x68u8, 0x6fu8,
        0x73u8, 0x74u8, 0x45u8, 0x78u8, 0x69u8, 0x74u8, 0x3du8,
    ]
}

/// The BEL byte that ends a marker.
pub open spec fn bel() -> Seq<u8> {
    seq![0x07u8]
}

/// Above this many bytes an unfinished buffer is cut back.
pub const BUFFER_LIMIT: usize = 4096;

/// How many of the most recent bytes survive a cut.
pub const BUFFER_KEEP: usize = 2048;

/// First position at or after `i` where `pat` occurs in `s` (`str::find`).
pub open spec fn find_from(s: Seq<u8>, pat: Seq<u8>, i: int) -> Option<int>
    decreases s.len() + 1 - i,
{
    if i < 0 || i + pat.len() > s.len() {
        None
    } else if occurs_at(s, pat, i) {
        Some(i)
    } else {
        find_from(s, pat, i + 1)
    }
}

/// A found position lies at or after the start and holds the pattern.
pub proof fn lemma_find_from(s: Seq<u8>, pat: Seq<u8>, i: int)
    ensures
        find_from(s, pat, i) matches Some(j) ==> i <= j && occurs_at(s, pat, j),
        find_from(s, pat, i) matches Some(j) ==> j + pat.len() <= s.len(),
        find_from(s, pat, i) matches Some(j) ==> forall|k: int|
            i <= k < j ==> !occurs_at(s, pat, k),
    decreases s.len() + 1 - i,
{
    if i < 0 || i + pat.len() > s.len() {
    } else if occurs_at(s, pat, i) {
    } else {
        lemma_find_from(s, pat, i + 1);
    }
}

/// Nothing is found at or after `i` exactly when the pattern occurs at no
/// position from `i` on.
pub proof fn lemma_find_from_none(s: Seq<u8>, pat: Seq<u8>, i: int)
    requires
        0 <= i,
    ensures
        find_from(s, pat, i) is None <==> forall|j: int| i <= j ==> !occurs_at(s, pat, j),
    decreases s.len() + 1 - i,
{
    if i + pat.len() > s.len() {
    } else if occurs_at(s, pat, i) {
    } else {
        lemma_find_from_none(s, pat, i + 1);
        assert forall|j: int| i <= j && find_from(s, pat, i) is None implies !occurs_at(s, pat, j) by {
            if j > i {
            }
        }
    }
}

/// Law: a command is reported finished exactly when the accumulated text
/// holds the marker prefix followed, somewhere later, by a BEL.
pub proof fn law_finished_iff_complete_marker(s: Seq<u8>)
    ensures
        boundary_step(s).1 is Finished <==> exists|i: int, j: int|
            occurs_at(s, exit_marker(), i) && i + exit_marker().len() <= j && occurs_at(s, bel(), j),
{
    lemma_find_from(s, exit_marker(), 0);
    lemma_find_from_none(s, exit_marker(), 0);
    if let Some(start) = find_from(s, exit_marker(), 0) {
        let off: int = start + exit_marker().len();
        lemma_find_from(s, bel(), off);
        lemma_find_from_none(s, bel(), off);
        if let Some(end) = find_from(s, bel(), off) {
            assert(occurs_at(s, exit_marker(), start) && start + exit_marker().len() <= end
                && occurs_at(s, bel(), end));
        } else {
            assert forall|i: int, j: int|
                occurs_at(s, exit_marker(), i) && i + exit_marker().len() <= j implies !occurs_at(
                s,
                bel(),
                j,
            ) by {
                if i < start {
                    assert(!occurs_at(s, exit_marker(), i));
                }
            }
        }
    }
}

/// Law: after a command is reported finished the buffer is empty, and the
/// buffer never grows past `BUFFER_LIMIT` bytes.
pub proof fn law_step_buffer(s: Seq<u8>)
    ensures
        boundary_step(s).1 is Finished ==> boundary_step(s).0 == Seq::<u8>::empty(),
        boundary_step(s).0.len() <= BUFFER_LIMIT,
        boundary_step(s).1 is Running && s.len() <= BUFFER_LIMIT ==> boundary_step(s).0 == s,
{
}

/// Law: output may arrive in any number of pieces. While no complete
/// marker has arrived and the buffer has not been cut, feeding `a` then `b`
/// gives the same buffer and status as feeding `a + b` at once.
pub proof fn law_split_delivery(held: Seq<u8>, a: Seq<u8>, b: Seq<u8>)
    requires
        complete_marker(held + a) is None,
        (held + a).len() <= BUFFER_LIMIT,
    ensures
        boundary_step(held + a).1 == CommandStatus::Running,
        boundary_step(boundary_step(held + a).0 + b) == boundary_step(held + (a + b)),
{
    assert(held + a + b =~= held + (a + b));
}

pub open spec fn is_digit(b: u8) -> bool {
    0x30 <= b <= 0x39
}

pub open spec fn all_digits(s: Seq<u8>) -> bool {
    forall|i: int| 0 <= i < s.len() ==> is_digit(#[trigger] s[i])
}

/// Value of a run of decimal digits.
pub open spec fn digits_value(s: Seq<u8>) -> nat
    decreases s.len(),
{
    if s.len() == 0 {
        0
    } else {
        digits_value(s.drop_last()) * 10 + (s.last() - 0x30) as nat
    }
}

/// `i32::from_str` on ASCII text: an optional `+` or `-`, then one or more
/// decimal digits, with a value that fits in `i32`.
pub open spec fn parse_i32(s: Seq<u8>) -> Option<i32> {
    if s.len() == 0 {
        None
    } else if s[0] == 0x2du8 {
        let d = s.drop_first();
        if d.len() > 0 && all_digits(d) && digits_value(d) <= 0x8000_0000 {
            Some((0 - digits_value(d)) as i32)
        } else {
            None
        }
    } else {
        let d = if s[0] == 0x2bu8 {
            s.drop_first()
        } else {
            s
        };
        if d.len() > 0 && all_digits(d) && digits_value(d) <= 0x7fff_ffff {
            Some(digits_value(d) as i32)
        } else {
            None
        }
    }
}

/// The decimal digits of `n` as ASCII bytes, without leading zeros (how a
/// shell prints an exit status).
pub open spec fn decimal_bytes(n: nat) -> Seq<u8>
    decreases n,
{
    if n < 10 {
        seq![(0x30 + n) as u8]
    } else {
        decimal_bytes(n / 10).push((0x30 + n % 10) as u8)
    }
}

proof fn lemma_decimal_bytes(n: nat)
    ensures
        decimal_bytes(n).len() > 0,
        all_digits(decimal_bytes(n)),
        digits_value(decimal_bytes(n)) == n,
    decreases n,
{
    let d = decimal_bytes(n);
    if n < 10 {
        assert(d.drop_last() =~= Seq::<u8>::empty());
        assert(digits_value(d) == digits_value(d.drop_last()) * 10 + (d.last() - 0x30) as nat);
    } else {
        lemma_decimal_bytes(n / 10);
        assert(d.drop_last() =~= decimal_bytes(n / 10));
        assert(d.last() == (0x30 + n % 10) as u8);
        assert((d.last() - 0x30) as nat == n % 10);
        assert(n == (n / 10) * 10 + n % 10) by (nonlinear_arith);
        assert forall|i: int| 0 <= i < d.len() implies is_digit(#[trigger] d[i]) by {
            if i < d.len() - 1 {
                assert(d[i] == decimal_bytes(n / 10)[i]);
            }
        }
    }
}

/// Law: a marker's code is read as a decimal number. The digits of any `n`
/// up to `i32::MAX` give the exit code `n`, and a `-` before the digits of
/// any `n` up to 2^31 gives `-n`.
pub proof fn law_exit_code_reads_decimal(n: nat)
    ensures
        n <= 0x7fff_ffff ==> exit_code_of(decimal_bytes(n)) == n,
        n <= 0x8000_0000 ==> exit_code_of(seq![0x2du8] + decimal_bytes(n)) == -n,
{
    lemma_decimal_bytes(n);
    let d = decimal_bytes(n);
    assert(is_digit(d[0]));
    let m = seq![0x2du8] + d;
    assert(m.drop_first() =~= d);
}

/// The first occurrence of `pat` at or after `i` is at `j` when it occurs
/// at `j` and nowhere between.
proof fn lemma_find_from_first(s: Seq<u8>, pat: Seq<u8>, i: int, j: int)
    requires
        0 <= i <= j,
        occurs_at(s, pat, j),
        forall|k: int| i <= k < j ==> !occurs_at(s, pat, k),
    ensures
        find_from(s, pat, i) == Some(j),
    decreases j - i,
{
    if i < j {
        lemma_find_from_first(s, pat, i + 1, j);
    }
}

/// Law: output that ends a command reports the command's exit code. When
/// the output `pre` before a marker holds no marker of its own, the text
/// `pre`, the marker, the digits of any `n` up to `i32::MAX`, BEL and any
/// further output `post` finish the command with exit code `n` and empty
/// the buffer.
pub proof fn law_marker_reports_exit_code(pre: Seq<u8>, n: nat, post: Seq<u8>)
    requires
        n <= 0x7fff_ffff,
        forall|k: int| 0 <= k < pre.len() ==> !occurs_at(pre + exit_marker(), exit_marker(), k),
    ensures
        boundary_step(pre + exit_marker() + decimal_bytes(n) + bel() + post) == (
            Seq::<u8>::empty(),
            CommandStatus::Finished { exit_code: n as i32 },
        ),
{
    let m = exit_marker();
    let d = decimal_bytes(n);
    let s = pre + m + d + bel() + post;
    let off: int = (pre.len() + m.len()) as int;
    lemma_decimal_bytes(n);
    law_exit_code_reads_decimal(n);
    assert forall|k: int| 0 <= k < off implies s[k] == #[trigger] (pre + m)[k] by {}
    lemma_marker_found(s, pre, m);
    assert forall|i: int| 0 <= i < d.len() implies s[off + i] == #[trigger] d[i] by {}
    assert(s[off + d.len()] == 0x07u8);
    lemma_code_found(s, off, d);
}

/// Where the marker first begins, when `s` starts with `pre` and the marker
/// and `pre` holds no marker of its own.
proof fn lemma_marker_found(s: Seq<u8>, pre: Seq<u8>, m: Seq<u8>)
    requires
        pre.len() + m.len() <= s.len(),
        forall|k: int| 0 <= k < pre.len() + m.len() ==> s[k] == #[trigger] (pre + m)[k],
        forall|k: int| 0 <= k < pre.len() ==> !occurs_at(pre + m, m, k),
    ensures
        find_from(s, m, 0) == Some(pre.len() as int),
{
    let pm = pre + m;
    let a: int = pre.len() as int;
    let b: int = (pre.len() + m.len()) as int;
    assert(s.subrange(a, b) =~= m) by {
        assert forall|i: int| 0 <= i < m.len() implies s.subrange(a, b)[i] == m[i] by {
            assert(s[pre.len() + i] == pm[pre.len() + i]);
        }
    }
    assert forall|k: int| 0 <= k < pre.len() implies !occurs_at(s, m, k) by {
        if occurs_at(s, m, k) {
            assert(pm.subrange(k, k + m.len()) =~= m) by {
                assert forall|i: int| 0 <= i < m.len() implies pm.subrange(k, k + m.len())[i]
                    == m[i] by {
                    assert(s.subrange(k, k + m.len())[i] == m[i]);
                    assert(s[k + i] == pm[k + i]);
                }
            }
            assert(occurs_at(pre + m, m, k));
        }
    }
    lemma_find_from_first(s, m, 0, pre.len() as int);
}

/// The code after the marker ends at the first BEL, when it is made of
/// digits.
proof fn lemma_code_found(s: Seq<u8>, off: int, d: Seq<u8>)
    requires
        0 <= off,
        off + d.len() < s.len(),
        all_digits(d),
        forall|i: int| 0 <= i < d.len() ==> s[off + i] == #[trigger] d[i],
        s[off + d.len()] == 0x07u8,
    ensures
        find_from(s, bel(), off) == Some(off + d.len()),
        s.subrange(off, off + d.len()) =~= d,
{
    let end = off + d.len();
    assert(s.subrange(end, end + 1) =~= bel());
    assert forall|k: int| off <= k < end implies !occurs_at(s, bel(), k) by {
        assert(s[off + (k - off)] == d[k - off]);
        assert(is_digit(d[k - off]));
        assert(s.subrange(k, k + 1)[0] == s[k]);
    }
    lemma_find_from_first(s, bel(), off, end);
    assert forall|i: int| 0 <= i < d.len() implies s.subrange(off, end)[i] == d[i] by {
        assert(s[off + i] == d[i]);
    }
}

/// Outcome of feeding output to the parser.
#[derive(Debug, PartialEq, Eq, Clone, Copy)]
pub enum CommandStatus {
    /// A complete marker arrived; the command ended with this exit code.
    Finished { exit_code: i32 },
    /// No complete marker yet.
    Running,
}

/// The exit code in a marker: the number between `=` and BEL, 0 when it
/// does not parse.
pub open spec fn exit_code_of(code: Seq<u8>) -> i32 {
    match parse_i32(code) {
        Some(v) => v,
        None => 0,
    }
}

/// Where the first marker's code lies in `s`, when that marker is complete:
/// the positions just after `=` and of the BEL.
pub open spec fn complete_marker(s: Seq<u8>) -> Option<(int, int)> {
    match find_from(s, exit_marker(), 0) {
        Some(start) => {
            let off: int = start + exit_marker().len();
            match find_from(s, bel(), off) {
                Some(end) => Some((off, end)),
                None => None,
            }
        },
        None => None,
    }
}

/// The buffer kept after an unfinished step: the whole text, or its last
/// `BUFFER_KEEP` bytes once it grew past `BUFFER_LIMIT`.
pub open spec fn keep_recent(s: Seq<u8>) -> Seq<u8> {
    if s.len() > BUFFER_LIMIT {
        s.subrange(s.len() - BUFFER_KEEP, s.len() as int)
    } else {
        s
    }
}

/// One step of the parser on the accumulated text `s` (old buffer followed
/// by the new text): the new buffer and the status reported.
pub open spec fn boundary_step(s: Seq<u8>) -> (Seq<u8>, CommandStatus) {
    match complete_marker(s) {
        Some((off, end)) => (
            Seq::empty(),
            CommandStatus::Finished { exit_code: exit_code_of(s.subrange(off, end)) },
        ),
        None => (keep_recent(s), CommandStatus::Running),
    }
}

/// A step without a complete marker must shorten a buffer grown past
/// `BUFFER_LIMIT` to its last `BUFFER_KEEP` bytes, and that cut would fall
/// inside a multi-byte character. `parse_text` and `parse_bytes` do not
/// take such input (`try_parse_bytes` refuses it and leaves the buffer as
/// it was).
pub open spec fn cut_splits_char(s: Seq<u8>) -> bool {
    &&& complete_marker(s) is None
    &&& s.len() > BUFFER_LIMIT
    &&& !is_char_boundary(s, s.len() - BUFFER_KEEP)
}

/// The text that decoding `bytes` appends to the buffer.
pub open spec fn decoded_bytes(bytes: Seq<u8>) -> Seq<u8> {
    encode_utf8(utf8_lossy(bytes))
}

/// Accumulates shell output and recognises the exit marker.
pub struct BoundaryParser {
    buffer: Vec<u8>,
}

impl View for BoundaryParser {
    type V = Seq<u8>;

    /// The UTF-8 bytes of the text held back since the last marker.
    closed spec fn view(&self) -> Seq<u8> {
        self.buffer@
    }
}

impl BoundaryParser {
    #[verifier::type_invariant]
    closed spec fn inv(&self) -> bool {
        &&& valid_utf8(self.buffer@)
        &&& self.buffer@.len() <= BUFFER_LIMIT
    }

    /// A parser with an empty buffer.
    pub fn new() -> (p: Self)
        ensures
            p@ == Seq::<u8>::empty(),
    {
        BoundaryParser { buffer: Vec::new() }
    }

    /// Feeds already decoded output text.
    pub fn parse_text(&mut self, text: &str) -> (status: CommandStatus)
        requires
            !cut_splits_char(old(self)@ + encode_utf8(text@)),
        ensures
            (final(self)@, status) == boundary_step(old(self)@ + encode_utf8(text@)),
            valid_utf8(final(self)@),
            final(self)@.len() <= BUFFER_LIMIT,
    {
        proof {
            use_type_invariant(&*self);
        }
        let mut s: Vec<u8> = Vec::new();
        std::mem::swap(&mut s, &mut self.buffer);
        let ghost old_buf = s@;
        let tb = text.as_bytes();
        let mut k: usize = 0;
        while k < tb.len()
            invariant
                tb@ == encode_utf8(text@),
                k <= tb@.len(),
                s@ == old_buf + tb@.subrange(0, k as int),
            decreases tb@.len() - k,
        {
            s.push(tb[k]);
            k = k + 1;
        }
        proof {
            assert(tb@.subrange(0, tb@.len() as int) =~= tb@);
            vstd::utf8::encode_utf8_valid_utf8(text@);
            vstd::utf8::valid_utf8_concat(old_buf, tb@);
        }
        let (new_buf, status) = step(&s);
        self.buffer = new_buf;
        status
    }

    /// Feeds raw output bytes, decoded as `String::from_utf8_lossy` does.
    pub fn parse_bytes(&mut self, bytes: &[u8]) -> (status: CommandStatus)
        requires
            !cut_splits_char(old(self)@ + decoded_bytes(bytes@)),
        ensures
            (final(self)@, status) == boundary_step(old(self)@ + decoded_bytes(bytes@)),
            valid_utf8(bytes@) ==> (final(self)@, status) == boundary_step(old(self)@ + bytes@),
    {
        let text = decode_utf8_lossy(bytes);
        proof {
            if valid_utf8(bytes@) {
                vstd::utf8::decode_utf8_encode_utf8(bytes@);
            }
        }
        self.parse_text(text.as_str())
    }

    /// Feeds raw output bytes like `parse_bytes`, or returns `None` and
    /// leaves the parser unchanged where the cut would split a character.
    pub fn try_parse_bytes(&mut self, bytes: &[u8]) -> (status: Option<CommandStatus>)
        ensures
            cut_splits_char(old(self)@ + decoded_bytes(bytes@)) ==> status is None,
            cut_splits_char(old(self)@ + decoded_bytes(bytes@)) ==> final(self)@ == old(self)@,
            !cut_splits_char(old(self)@ + decoded_bytes(bytes@)) ==> status == Some(
                boundary_step(old(self)@ + decoded_bytes(bytes@)).1,
            ),
            !cut_splits_char(old(self)@ + decoded_bytes(bytes@)) ==> final(self)@
                == boundary_step(old(self)@ + decoded_bytes(bytes@)).0,
    {
        proof {
            use_type_invariant(&*self);
        }
        let text = decode_utf8_lossy(bytes);
        let tb = text.as_str().as_bytes();
        proof {
            vstd::utf8::encode_utf8_valid_utf8(text@);
        }
        let splits = cut_would_split(&self.buffer, tb);
        if splits {
            None
        } else {
            Some(self.parse_bytes(bytes))
        }
    }
}

/// Whether the step on `buf` followed by `more` would cut inside a character.
fn cut_would_split(buf: &Vec<u8>, more: &[u8]) -> (r: bool)
    requires
        valid_utf8(buf@),
        valid_utf8(more@),
    ensures
        r == cut_splits_char(buf@ + more@),
{
    let mut s: Vec<u8> = Vec::new();
    let mut k: usize = 0;
    while k < buf.len()
        invariant
            k <= buf@.len(),
            s@ == buf@.subrange(0, k as int),
        decreases buf@.len() - k,
    {
        s.push(buf[k]);
        k = k + 1;
    }
    let mut j: usize = 0;
    while j < more.len()
        invariant
            k == buf@.len(),
            j <= more@.len(),
            s@ == buf@ + more@.subrange(0, j as int),
        decreases more@.len() - j,
    {
        s.push(more[j]);
        j = j + 1;
    }
    proof {
        assert(buf@.subrange(0, k as int) =~= buf@);
        assert(more@.subrange(0, more@.len() as int) =~= more@);
        assert(s@ =~= buf@ + more@);
        vstd::utf8::valid_utf8_concat(buf@, more@);
    }
    let found = find_complete_marker(&s);
    if found.is_some() || s.len() <= BUFFER_LIMIT {
        return false;
    }
    let cut: usize = s.len() - BUFFER_KEEP;
    proof {
        vstd::utf8::is_char_boundary_iff_not_is_continuation_byte(s@, cut as int);
    }
    0x80 <= s[cut] && s[cut] <= 0xbf
}

/// The new buffer and status for accumulated valid text `s`.
fn step(s: &Vec<u8>) -> (r: (Vec<u8>, CommandStatus))
    requires
        valid_utf8(s@),
        !cut_splits_char(s@),
    ensures
        (r.0@, r.1) == boundary_step(s@),
        valid_utf8(r.0@),
        r.0@.len() <= BUFFER_LIMIT,
{
    match find_complete_marker(s) {
        Some((off, end)) => {
            let code = copy_range(s, off, end);
            let exit_code = match parse_i32_digits(&code) {
                Some(v) => v,
                None => 0,
            };
            (Vec::new(), CommandStatus::Finished { exit_code })
        },
        None => {
            if s.len() > BUFFER_LIMIT {
                let cut: usize = s.len() - BUFFER_KEEP;
                let kept = copy_range(s, cut, s.len());
                proof {
                    vstd::utf8::valid_utf8_split(s@, cut as int);
                }
                (kept, CommandStatus::Running)
            } else {
                proof {
                    assert(s@.subrange(0, s@.len() as int) =~= s@);
                }
                (copy_range(s, 0, s.len()), CommandStatus::Running)
            }
        },
    }
}

/// `s[from..to]` as a new vector.
fn copy_range(s: &Vec<u8>, from: usize, to: usize) -> (r: Vec<u8>)
    requires
        from <= to <= s@.len(),
    ensures
        r@ == s@.subrange(from as int, to as int),
{
    let mut r: Vec<u8> = Vec::new();
    let mut k: usize = from;
    while k < to
        invariant
            from <= k <= to <= s@.len(),
            r@ == s@.subrange(from as int, k as int),
        decreases to - k,
    {
        r.push(s[k]);
        k = k + 1;
    }
    r
}

/// Byte `k` of the marker prefix.
fn exit_marker_bytes() -> (m: Vec<u8>)
    ensures
        m@ == exit_marker(),
{
    let mut m: Vec<u8> = Vec::new();
    m.push(0x1b);
    m.push(0x5d);
    m.push(0x31);
    m.push(0x33);
    m.push(0x33);
    m.push(0x37);
    m.push(0x3b);
    m.push(0x47);
    m.push(0x68);
    m.push(0x6f);
    m.push(0x73);
    m.push(0x74);
    m.push(0x45);
    m.push(0x78);
    m.push(0x69);
    m.push(0x74);
    m.push(0x3d);
    proof {
        assert(m@ =~= exit_marker());
    }
    m
}

fn bytes_occur_at(s: &Vec<u8>, pat: &Vec<u8>, i: usize) -> (r: bool)
    requires
        i + pat@.len() <= s@.len(),
    ensures
        r == occurs_at(s@, pat@, i as int),
{
    let mut k: usize = 0;
    while k < pat.len()
        invariant
            i + pat.len() <= s.len(),
            i + pat@.len() <= s@.len(),
            k <= pat@.len(),
            forall|j: int| 0 <= j < k ==> s@[i + j] == pat@[j],
        decreases pat@.len() - k,
    {
        if s[i + k] != pat[k] {
            proof {
                assert(s@.subrange(i as int, i + pat@.len())[k as int] == s@[i + k]);
            }
            return false;
        }
        k = k + 1;
    }
    proof {
        assert(s@.subrange(i as int, i + pat@.len()) =~= pat@);
    }
    true
}

/// First position at or after `from` where `pat` occurs in `s`.
fn find_bytes_from(s: &Vec<u8>, pat: &Vec<u8>, from: usize) -> (r: Option<usize>)
    ensures
        r matches Some(i) ==> find_from(s@, pat@, from as int) == Some(i as int),
        r is None ==> find_from(s@, pat@, from as int) is None,
{
    if pat.len() > s.len() {
        return None;
    }
    let last: usize = s.len() - pat.len();
    let mut i: usize = from;
    while i <= last
        invariant
            last + pat@.len() == s@.len(),
            from <= i,
            find_from(s@, pat@, from as int) == find_from(s@, pat@, i as int),
        decreases last + 1 - i,
    {
        if bytes_occur_at(s, pat, i) {
            return Some(i);
        }
        if i == last {
            proof {
                assert(find_from(s@, pat@, i + 1) is None);
            }
            return None;
        }
        i = i + 1;
    }
    None
}

/// Positions of the first marker's code and closing BEL, when complete.
fn find_complete_marker(s: &Vec<u8>) -> (r: Option<(usize, usize)>)
    ensures
        r matches Some((a, b)) ==> complete_marker(s@) == Some((a as int, b as int)),
        r is None ==> complete_marker(s@) is None,
        r matches Some((a, b)) ==> a <= b <= s@.len(),
{
    let marker = exit_marker_bytes();
    let n: usize = s.len();
    proof {
        lemma_find_from(s@, exit_marker(), 0);
    }
    match find_bytes_from(s, &marker, 0) {
        Some(start) => {
            proof {
                lemma_find_from(s@, bel(), start + exit_marker().len());
            }
            let off: usize = start + marker.len();
            let mut b: Vec<u8> = Vec::new();
            b.push(0x07);
            proof {
                assert(b@ =~= bel());
            }
            match find_bytes_from(s, &b, off) {
                Some(end) => Some((off, end)),
                None => None,
            }
        },
        None => None,
    }
}

/// Once a run of digits reaches this value it no longer fits any `i32`.
pub open spec fn digit_cap() -> nat {
    0x8000_0001
}

pub open spec fn capped(v: nat) -> nat {
    if v < digit_cap() {
        v
    } else {
        digit_cap()
    }
}

/// Whether `s[start..]` is all digits, and its value capped at `digit_cap()`.
fn capped_digits(s: &Vec<u8>, start: usize) -> (r: (bool, u64))
    requires
        start <= s@.len(),
    ensures
        r.0 == all_digits(s@.subrange(start as int, s@.len() as int)),
        r.0 ==> r.1 == capped(digits_value(s@.subrange(start as int, s@.len() as int))),
{
    let mut acc: u64 = 0;
    let mut k: usize = start;
    while k < s.len()
        invariant
            start <= k <= s@.len(),
            all_digits(s@.subrange(start as int, k as int)),
            acc == capped(digits_value(s@.subrange(start as int, k as int))),
        decreases s@.len() - k,
    {
        let ghost pre = s@.subrange(start as int, k as int);
        let ghost nxt = s@.subrange(start as int, k + 1);
        let b: u8 = s[k];
        if b < 0x30 || b > 0x39 {
            proof {
                let whole = s@.subrange(start as int, s@.len() as int);
                assert(whole[k - start] == b);
            }
            return (false, 0);
        }
        proof {
            assert(nxt.drop_last() =~= pre);
            assert(nxt.last() == b);
            assert forall|i: int| 0 <= i < nxt.len() implies is_digit(#[trigger] nxt[i]) by {
                if i < pre.len() {
                    assert(nxt[i] == pre[i]);
                }
            }
        }
        if acc < 0x8000_0001 {
            let next: u64 = acc * 10 + (b - 0x30) as u64;
            acc = if next < 0x8000_0001 {
                next
            } else {
                0x8000_0001
            };
        }
        k = k + 1;
    }
    proof {
        assert(s@.subrange(start as int, k as int) =~= s@.subrange(start as int, s@.len() as int));
    }
    (true, acc)
}

/// `i32::from_str` on ASCII text.
fn parse_i32_digits(s: &Vec<u8>) -> (r: Option<i32>)
    ensures
        r == parse_i32(s@),
{
    if s.len() == 0 {
        return None;
    }
    let first: u8 = s[0];
    let start: usize = if first == 0x2d || first == 0x2b {
        1
    } else {
        0
    };
    proof {
        assert(s@.drop_first() =~= s@.subrange(1, s@.len() as int));
        assert(s@ =~= s@.subrange(0, s@.len() as int));
    }
    if start == s.len() {
        return None;
    }
    let (ok, acc) = capped_digits(s, start);
    if !ok {
        return None;
    }
    if first == 0x2d {
        if acc <= 0x8000_0000 {
            let v: i64 = 0 - (acc as i64);
            Some(v as i32)
        } else {
            None
        }
    } else {
        if acc <= 0x7fff_ffff {
            Some(acc as i32)
        } else {
            None
        }
    }
}

} // verus!
