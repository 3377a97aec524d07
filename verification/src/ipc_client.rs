//! The messages exchanged with the diagnosis daemon, and the request URLs.
//!
//! The HTTP exchange itself is not part of this crate; it builds the URLs
//! and holds the request and reply data as plain values.

use vstd::prelude::*;

use crate::text::{chars_of, decimal, push_decimal, push_str, string_from_chars};

verus! {

broadcast use vstd::seq::group_seq_axioms;

/// Body of a diagnosis request.
#[derive(Debug)]
pub struct DiagnoseRequest<'a> {
    pub command: &'a str,
    pub exit_code: i32,
    pub output_context: &'a str,
    pub cwd: String,
}

/// One intercepted failure as the daemon stored it.
#[derive(Debug)]
pub struct HistoryRecord {
    pub id: i32,
    pub timestamp: String,
    pub workspace: Option<String>,
    pub command: String,
    pub exit_code: i32,
    pub diagnosis: String,
    pub suggested_fix: String,
    pub engine_source: Option<String>,
}

/// A page of failure history.
#[derive(Debug)]
pub struct HistoryResponse {
    pub status: String,
    pub count: usize,
    pub history: Vec<HistoryRecord>,
}

/// How often one command failed.
#[derive(Debug)]
pub struct CommandStat {
    pub command: String,
    pub failure_count: i64,
}

/// How many failures one workspace saw.
#[derive(Debug)]
pub struct WorkspaceStat {
    pub workspace: String,
    pub failure_count: i64,
}

/// How often one diagnosis engine was used.
#[derive(Debug)]
pub struct EngineCount {
    pub engine: String,
    pub count: i64,
}

/// Aggregate failure statistics.
#[derive(Debug)]
pub struct DoctorStatsResponse {
    pub total_failures: i64,
    pub top_failing_commands: Vec<CommandStat>,
    pub workspace_breakdown: Vec<WorkspaceStat>,
    /// Invocations per engine, each engine once (see `engines_distinct`).
    pub engine_sources: Vec<EngineCount>,
}

impl DoctorStatsResponse {
    /// No engine is listed twice: the daemon reports the counts as a map.
    pub open spec fn engines_distinct(&self) -> bool {
        forall|i: int, j: int|
            0 <= i < j < self.engine_sources@.len() ==> (#[trigger] self.engine_sources@[i]).engine@
                != (#[trigger] self.engine_sources@[j]).engine@
    }

    /// Whether no engine is listed twice.
    pub fn engines_are_distinct(&self) -> (r: bool)
        ensures
            r == self.engines_distinct(),
    {
        let n = self.engine_sources.len();
        let mut j: usize = 0;
        while j < n
            invariant
                n == self.engine_sources@.len(),
                j <= n,
                forall|a: int, b: int|
                    0 <= a < b < j ==> (#[trigger] self.engine_sources@[a]).engine@
                        != (#[trigger] self.engine_sources@[b]).engine@,
            decreases n - j,
        {
            let mut i: usize = 0;
            while i < j
                invariant
                    n == self.engine_sources@.len(),
                    i <= j < n,
                    forall|a: int, b: int|
                        0 <= a < b < j ==> (#[trigger] self.engine_sources@[a]).engine@
                            != (#[trigger] self.engine_sources@[b]).engine@,
                    forall|a: int|
                        0 <= a < i ==> (#[trigger] self.engine_sources@[a]).engine@
                            != self.engine_sources@[j as int].engine@,
                decreases j - i,
            {
                if self.engine_sources[i].engine == self.engine_sources[j].engine {
                    return false;
                }
                i = i + 1;
            }
            j = j + 1;
        }
        true
    }
}

/// Characters sent unescaped in a query string.
pub open spec fn unreserved(c: char) -> bool {
    ||| ('a' <= c && c <= 'z')
    ||| ('A' <= c && c <= 'Z')
    ||| ('0' <= c && c <= '9')
    ||| c == '-'
    ||| c == '_'
    ||| c == '.'
    ||| c == '~'
}

/// Upper-case hexadecimal digit `d`.
pub open spec fn hex_char(d: nat) -> char {
    if d < 10 {
        ((48 + d) as u8) as char
    } else {
        ((55 + d) as u8) as char
    }
}

/// Upper-case hexadecimal representation, without leading zeros.
pub open spec fn hex(n: nat) -> Seq<char>
    decreases n,
{
    if n < 16 {
        seq![hex_char(n)]
    } else {
        hex(n / 16).push(hex_char(n % 16))
    }
}

/// Upper-case hexadecimal, padded with `0` to at least two digits.
pub open spec fn hex_min2(n: nat) -> Seq<char> {
    if n < 16 {
        seq!['0', hex_char(n)]
    } else {
        hex(n)
    }
}

/// How one character is written in a query string.
pub open spec fn encode_query_char(c: char) -> Seq<char> {
    if unreserved(c) {
        seq![c]
    } else if c == ' ' {
        seq!['%', '2', '0']
    } else {
        seq!['%'] + hex_min2((c as u32) as nat)
    }
}

/// A text written for a query string: unreserved characters as they are,
/// space as `%20`, any other character as `%` and its code point in
/// upper-case hexadecimal of at least two digits.
pub open spec fn url_encode(s: Seq<char>) -> Seq<char>
    decreases s.len(),
{
    if s.len() == 0 {
        Seq::empty()
    } else {
        url_encode(s.drop_last()) + encode_query_char(s.last())
    }
}

/// URL of the history endpoint.
pub open spec fn history_url(limit: nat, workspace: Option<Seq<char>>) -> Seq<char> {
    let base = "http://127.0.0.1:8000/history?limit="@ + decimal(limit);
    match workspace {
        Some(ws) => base + "&workspace="@ + url_encode(ws),
        None => base,
    }
}

/// URL of the search endpoint.
pub open spec fn search_url(query: Seq<char>, limit: nat) -> Seq<char> {
    "http://127.0.0.1:8000/search?q="@ + url_encode(query) + "&limit="@ + decimal(limit)
}

proof fn lemma_hex_unreserved(n: nat)
    ensures
        forall|i: int| 0 <= i < hex(n).len() ==> unreserved(#[trigger] hex(n)[i]),
    decreases n,
{
    if n >= 16 {
        lemma_hex_unreserved(n / 16);
        let h = hex(n);
        let pre = hex(n / 16);
        assert forall|i: int| 0 <= i < h.len() implies unreserved(#[trigger] h[i]) by {
            if i < pre.len() {
                assert(h[i] == pre[i]);
            }
        }
    }
}

/// Law: an encoded text is safe in a query string: it holds only
/// unreserved characters and `%`, so no space, `&`, `=`, `#` or `?` of the
/// unencoded text survives to change the URL's meaning.
pub proof fn law_url_encode_safe(s: Seq<char>)
    ensures
        forall|i: int|
            0 <= i < url_encode(s).len() ==> unreserved(#[trigger] url_encode(s)[i])
                || url_encode(s)[i] == '%',
    decreases s.len(),
{
    if s.len() > 0 {
        law_url_encode_safe(s.drop_last());
        let c = s.last();
        let pre = url_encode(s.drop_last());
        let e = url_encode(s);
        let tail = encode_query_char(c);
        if !unreserved(c) && c != ' ' {
            lemma_hex_unreserved((c as u32) as nat);
        }
        assert forall|i: int| 0 <= i < e.len() implies unreserved(#[trigger] e[i]) || e[i] == '%' by {
            if i < pre.len() {
                assert(e[i] == pre[i]);
            } else {
                assert(e[i] == tail[i - pre.len()]);
                if !unreserved(c) && c != ' ' && (c as u32) as nat >= 16 {
                    if i - pre.len() >= 1 {
                        assert(tail[i - pre.len()] == hex((c as u32) as nat)[i - pre.len() - 1]);
                    }
                }
            }
        }
    }
}

pub open spec fn is_hex_char(c: char) -> bool {
    ('0' <= c && c <= '9') || ('A' <= c && c <= 'F')
}

/// Value of an upper-case hexadecimal digit.
pub open spec fn hex_value(c: char) -> int {
    if c <= '9' {
        (c as u32) - 48
    } else {
        (c as u32) - 55
    }
}

/// Percent-decoding: every `%` followed by two hexadecimal digits stands
/// for the character with that code.
pub open spec fn percent_decode(e: Seq<char>) -> Seq<char>
    decreases e.len(),
{
    if e.len() == 0 {
        Seq::empty()
    } else if e.len() >= 3 && e[e.len() - 3] == '%' && is_hex_char(e[e.len() - 2]) && is_hex_char(
        e.last(),
    ) {
        percent_decode(e.subrange(0, e.len() - 3)).push(
            ((hex_value(e[e.len() - 2]) * 16 + hex_value(e.last())) as u32) as char,
        )
    } else {
        percent_decode(e.drop_last()).push(e.last())
    }
}

proof fn lemma_hex_digit(d: nat)
    requires
        d < 16,
    ensures
        is_hex_char(hex_char(d)),
        hex_value(hex_char(d)) == d,
        hex_char(d) != '%',
{
}

/// Law: encoding loses nothing on ASCII text: percent-decoding the encoded
/// text gives the text back.
pub proof fn law_url_encode_round_trip(s: Seq<char>)
    requires
        vstd::utf8::is_ascii_chars(s),
    ensures
        percent_decode(url_encode(s)) == s,
        forall|i: int|
            0 <= i < url_encode(s).len() && #[trigger] url_encode(s)[i] == '%' ==> i + 3
                <= url_encode(s).len(),
    decreases s.len(),
{
    if s.len() > 0 {
        let r = s.drop_last();
        assert(vstd::utf8::is_ascii_chars(r)) by {
            assert forall|i: int| 0 <= i < r.len() implies '\0' <= #[trigger] r[i] && r[i] <= '\u{7f}' by {
                assert(r[i] == s[i]);
            }
        }
        law_url_encode_round_trip(r);
        let c = s.last();
        let pre = url_encode(r);
        let tail = encode_query_char(c);
        let e = url_encode(s);
        assert(e == pre + tail);
        assert(s =~= r.push(c));
        let v = (c as u32) as nat;
        if unreserved(c) {
            assert(tail == seq![c]);
            assert(e.drop_last() =~= pre);
            if e.len() >= 3 && e[e.len() - 3] == '%' {
                assert(e[e.len() - 3] == pre[pre.len() - 2]);
            }
        } else if c == ' ' {
            assert(e.subrange(0, e.len() - 3) =~= pre);
            assert(e[e.len() - 3] == '%');
            assert(((2int * 16 + 0) as u32) as char == ' ');
        } else {
            assert(v < 128);
            let hi = v / 16;
            let lo = v % 16;
            lemma_hex_digit(hi);
            lemma_hex_digit(lo);
            if v < 16 {
                assert(hex_min2(v) == seq!['0', hex_char(v)]);
                assert(hi == 0);
                assert(hex_char(0) == '0');
            } else {
                assert(hex(hi) == seq![hex_char(hi)]);
                assert(hex_min2(v) =~= seq![hex_char(hi), hex_char(lo)]);
            }
            assert(tail =~= seq!['%', hex_char(hi), hex_char(lo)]);
            assert(e.subrange(0, e.len() - 3) =~= pre);
            assert(hi * 16 + lo == v);
            vstd::utf8::char_u32_cast(c, c as u32);
        }
        assert forall|i: int| 0 <= i < e.len() && #[trigger] e[i] == '%' implies i + 3 <= e.len() by {
            if i < pre.len() {
                assert(e[i] == pre[i]);
            } else if !unreserved(c) && c != ' ' {
                let hi = v / 16;
                let lo = v % 16;
                lemma_hex_digit(hi);
                lemma_hex_digit(lo);
            }
        }
    }
}

fn push_hex(out: &mut Vec<char>, n: u32)
    ensures
        final(out)@ == old(out)@ + hex(n as nat),
    decreases n,
{
    if n >= 16 {
        push_hex(out, n / 16);
    }
    let d: u8 = (n % 16) as u8;
    let c = if d < 10 {
        (48u8 + d) as char
    } else {
        (55u8 + d) as char
    };
    out.push(c);
    proof {
        assert(out@ =~= old(out)@ + hex(n as nat));
    }
}

fn unreserved_char(c: char) -> (r: bool)
    ensures
        r == unreserved(c),
{
    ('a' <= c && c <= 'z') || ('A' <= c && c <= 'Z') || ('0' <= c && c <= '9') || c == '-' || c
        == '_' || c == '.' || c == '~'
}

fn push_url_encoded(out: &mut Vec<char>, s: &[char])
    ensures
        final(out)@ == old(out)@ + url_encode(s@),
{
    let mut i: usize = 0;
    while i < s.len()
        invariant
            i <= s@.len(),
            out@ == old(out)@ + url_encode(s@.subrange(0, i as int)),
        decreases s@.len() - i,
    {
        let ghost pre = out@;
        let c = s[i];
        if unreserved_char(c) {
            out.push(c);
        } else if c == ' ' {
            out.push('%');
            out.push('2');
            out.push('0');
        } else {
            out.push('%');
            let v: u32 = c as u32;
            if v < 16 {
                out.push('0');
                push_hex(out, v);
                proof {
                    assert(hex(v as nat) =~= seq![hex_char(v as nat)]);
                    assert(out@ =~= pre + encode_query_char(c));
                }
            } else {
                push_hex(out, v);
                proof {
                    assert(out@ =~= pre + encode_query_char(c));
                }
            }
        }
        proof {
            let t = s@.subrange(0, i + 1);
            assert(t.drop_last() =~= s@.subrange(0, i as int));
            assert(t.last() == c);
            assert(out@ =~= pre + encode_query_char(c));
        }
        i = i + 1;
    }
    proof {
        assert(s@.subrange(0, s@.len() as int) =~= s@);
    }
}

/// `s` written for a query string.
pub fn urlencoding_simple(s: &str) -> (r: String)
    ensures
        r@ == url_encode(s@),
{
    let cs = chars_of(s);
    let mut out: Vec<char> = Vec::new();
    push_url_encoded(&mut out, &cs);
    proof {
        assert(out@ =~= url_encode(s@));
    }
    string_from_chars(&out)
}

/// URL that fetches the `limit` most recent failures, of one workspace
/// when one is given.
pub fn fetch_history_url(limit: usize, workspace: Option<&str>) -> (r: String)
    ensures
        r@ == history_url(
            limit as nat,
            match workspace {
                Some(ws) => Some(ws@),
                None => None,
            },
        ),
{
    let mut out: Vec<char> = Vec::new();
    push_str(&mut out, "http://127.0.0.1:8000/history?limit=");
    push_decimal(&mut out, limit as u128);
    match workspace {
        Some(ws) => {
            push_str(&mut out, "&workspace=");
            let cs = chars_of(ws);
            push_url_encoded(&mut out, &cs);
        },
        None => {},
    }
    proof {
        assert(out@ =~= history_url(
            limit as nat,
            match workspace {
                Some(ws) => Some(ws@),
                None => None,
            },
        ));
    }
    string_from_chars(&out)
}

/// URL that searches past failures for `query`.
pub fn search_history_url(query: &str, limit: usize) -> (r: String)
    ensures
        r@ == search_url(query@, limit as nat),
{
    let mut out: Vec<char> = Vec::new();
    push_str(&mut out, "http://127.0.0.1:8000/search?q=");
    let cs = chars_of(query);
    push_url_encoded(&mut out, &cs);
    push_str(&mut out, "&limit=");
    push_decimal(&mut out, limit as u128);
    proof {
        assert(out@ =~= search_url(query@, limit as nat));
    }
    string_from_chars(&out)
}

} // verus!
