//! The `ghost doctor` command: its argument parsing, and the reports it
//! prints from the daemon's history and statistics.

use vstd::prelude::*;

use crate::ipc_client::{
    CommandStat, DoctorStatsResponse, EngineCount, HistoryRecord, HistoryResponse, WorkspaceStat,
};
use crate::text::{
    chars_eq_str, chars_equal, chars_of, concat_map, decimal, digit_char, is_white_space, is_whitespace,
    in_trim_set, lemma_concat_map_entry, lemma_trim_window, lemma_concat_map_step, occurs_at, push_decimal, push_int, push_str, signed_decimal,
    string_from_chars, to_lowercase, trim, trim_by, trim_chars, unicode_lowercase, TrimSet,
};

verus! {

broadcast use vstd::seq::group_seq_axioms;

// ---------------------------------------------------------------------------
// Splitting into words
// ---------------------------------------------------------------------------

/// Completed words and the word in progress after reading `s`.
pub open spec fn split_state(s: Seq<char>) -> (Seq<Seq<char>>, Seq<char>)
    decreases s.len(),
{
    if s.len() == 0 {
        (Seq::empty(), Seq::empty())
    } else {
        let (done, cur) = split_state(s.drop_last());
        let c = s.last();
        if is_white_space(c) {
            if cur.len() > 0 {
                (done.push(cur), Seq::empty())
            } else {
                (done, cur)
            }
        } else {
            (done, cur.push(c))
        }
    }
}

/// The maximal runs of non-whitespace characters of `s`
/// (`str::split_whitespace`).
pub open spec fn words(s: Seq<char>) -> Seq<Seq<char>> {
    let (done, cur) = split_state(s);
    if cur.len() > 0 {
        done.push(cur)
    } else {
        done
    }
}

pub open spec fn views(v: Seq<Vec<char>>) -> Seq<Seq<char>> {
    v.map_values(|x: Vec<char>| x@)
}

fn split_whitespace(s: &[char]) -> (parts: Vec<Vec<char>>)
    ensures
        views(parts@) == words(s@),
{
    let mut done: Vec<Vec<char>> = Vec::new();
    let mut cur: Vec<char> = Vec::new();
    let mut i: usize = 0;
    while i < s.len()
        invariant
            i <= s@.len(),
            (views(done@), cur@) == split_state(s@.subrange(0, i as int)),
        decreases s@.len() - i,
    {
        let ghost pre_done = views(done@);
        let c = s[i];
        proof {
            let t = s@.subrange(0, i + 1);
            assert(t.drop_last() =~= s@.subrange(0, i as int));
            assert(t.last() == c);
        }
        if is_whitespace(c) {
            if cur.len() > 0 {
                let w = cur;
                cur = Vec::new();
                done.push(w);
                proof {
                    assert(views(done@) =~= pre_done.push(w@));
                }
            }
        } else {
            cur.push(c);
        }
        i = i + 1;
    }
    proof {
        assert(s@.subrange(0, s@.len() as int) =~= s@);
    }
    if cur.len() > 0 {
        let ghost pre_done = views(done@);
        let w = cur;
        done.push(w);
        proof {
            assert(views(done@) =~= pre_done.push(w@));
        }
    }
    done
}

// ---------------------------------------------------------------------------
// Flags and numbers
// ---------------------------------------------------------------------------

/// First position at or after `i` of a part that is one of `names`.
pub open spec fn first_named(parts: Seq<Seq<char>>, names: Seq<Seq<char>>, i: int) -> Option<int>
    decreases parts.len() + 1 - i,
{
    if i < 0 || i >= parts.len() {
        None
    } else if names.contains(parts[i]) {
        Some(i)
    } else {
        first_named(parts, names, i + 1)
    }
}

/// The part after the first flag among `names`, when there is one.
pub open spec fn flag_value(parts: Seq<Seq<char>>, names: Seq<Seq<char>>) -> Option<Seq<char>> {
    match first_named(parts, names, 0) {
        Some(p) => if p + 1 < parts.len() {
            Some(parts[p + 1])
        } else {
            None
        },
        None => None,
    }
}

pub open spec fn is_dec_digit(c: char) -> bool {
    '0' <= c && c <= '9'
}

/// Value of a run of decimal digit characters.
pub open spec fn char_digits_value(s: Seq<char>) -> nat
    decreases s.len(),
{
    if s.len() == 0 {
        0
    } else {
        char_digits_value(s.drop_last()) * 10 + ((s.last() as u32) - 48) as nat
    }
}

/// The digits of an unsigned number: the text after an optional `+`.
pub open spec fn unsigned_digits(s: Seq<char>) -> Seq<char> {
    if s.len() > 0 && s[0] == '+' {
        s.drop_first()
    } else {
        s
    }
}

pub open spec fn all_dec_digits(d: Seq<char>) -> bool {
    forall|i: int| 0 <= i < d.len() ==> is_dec_digit(#[trigger] d[i])
}

/// `usize::from_str`: an optional `+`, then one or more decimal digits,
/// with a value that fits in `usize`.
pub open spec fn parse_usize(s: Seq<char>) -> Option<usize> {
    let d = unsigned_digits(s);
    if d.len() > 0 && all_dec_digits(d) && char_digits_value(d) <= usize::MAX {
        Some(char_digits_value(d) as usize)
    } else {
        None
    }
}

pub open spec fn stats_flags() -> Seq<Seq<char>> {
    seq!["--stats"@, "-s"@]
}

pub open spec fn search_flags() -> Seq<Seq<char>> {
    seq!["--search"@, "-q"@]
}

pub open spec fn export_flags() -> Seq<Seq<char>> {
    seq!["--export"@, "-e"@]
}

pub open spec fn out_flags() -> Seq<Seq<char>> {
    seq!["--out"@, "-o"@]
}

pub open spec fn limit_flags() -> Seq<Seq<char>> {
    seq!["--limit"@, "-l"@, "-n"@]
}

/// The number after `--limit`, `-l` or `-n`, when it parses.
pub open spec fn limit_arg(parts: Seq<Seq<char>>) -> Option<usize> {
    match flag_value(parts, limit_flags()) {
        Some(v) => parse_usize(v),
        None => None,
    }
}

pub open spec fn limit_or(parts: Seq<Seq<char>>, default: usize) -> usize {
    match limit_arg(parts) {
        Some(v) => v,
        None => default,
    }
}

/// The report file written when no `--out` is given.
pub open spec fn default_report_path(format: Seq<char>) -> Seq<char> {
    if format == "json"@ {
        "ghost_report.json"@
    } else {
        "ghost_report.md"@
    }
}

pub open spec fn is_quote(c: char) -> bool {
    c == '"' || c == '\''
}

/// First word at or after position `i` that ends with `q`.
pub open spec fn closing_word(parts: Seq<Seq<char>>, q: char, i: int) -> Option<int>
    decreases parts.len() - i,
{
    if i < 0 || i >= parts.len() {
        None
    } else if parts[i].len() > 0 && parts[i].last() == q {
        Some(i)
    } else {
        closing_word(parts, q, i + 1)
    }
}

/// Position of the last word of the argument that starts at word `s`: a
/// word opening a quote runs to the word that closes it; a quote that no
/// later word closes, and any other argument, is one word.
pub open spec fn argument_end(parts: Seq<Seq<char>>, s: int) -> int {
    let w = parts[s];
    if w.len() > 0 && is_quote(w[0]) && !(w.len() >= 2 && w.last() == w[0]) {
        match closing_word(parts, w[0], s + 1) {
            Some(k) => k,
            None => s,
        }
    } else {
        s
    }
}

/// Words joined with single spaces.
pub open spec fn join_words(ws: Seq<Seq<char>>) -> Seq<char>
    decreases ws.len(),
{
    if ws.len() == 0 {
        Seq::empty()
    } else if ws.len() == 1 {
        ws[0]
    } else {
        join_words(ws.drop_last()) + seq![' '] + ws.last()
    }
}

/// Position of the word after `--search` / `-q`, when there is one.
pub open spec fn search_start(parts: Seq<Seq<char>>) -> Option<int> {
    match first_named(parts, search_flags(), 0) {
        Some(p) => if p + 1 < parts.len() {
            Some(p + 1)
        } else {
            None
        },
        None => None,
    }
}

/// The search query given at word `s`: the whole quoted argument, its
/// words joined with single spaces, without its quotes.
pub open spec fn search_query(parts: Seq<Seq<char>>, s: int) -> Seq<char> {
    unquote(join_words(parts.subrange(s, argument_end(parts, s) + 1)))
}

/// A search query with surrounding double, then single quotes removed.
pub open spec fn unquote(s: Seq<char>) -> Seq<char> {
    trim_by(trim_by(s, TrimSet::Only('"')), TrimSet::Only('\''))
}

/// Abstract form of a doctor command.
pub enum DoctorModel {
    Default { limit: usize },
    Search { query: Seq<char>, limit: usize },
    Stats,
    Export { format: Seq<char>, out_path: Seq<char> },
}

/// How a doctor command line is read.
pub open spec fn parse_doctor(raw: Seq<char>) -> DoctorModel {
    let parts = words(trim(raw));
    if first_named(parts, stats_flags(), 0) is Some {
        DoctorModel::Stats
    } else if search_start(parts) is Some {
        DoctorModel::Search {
            query: search_query(parts, search_start(parts)->0),
            limit: limit_or(parts, 10),
        }
    } else if flag_value(parts, export_flags()) is Some {
        let format = unicode_lowercase(flag_value(parts, export_flags())->0);
        DoctorModel::Export {
            format,
            out_path: match flag_value(parts, out_flags()) {
                Some(p) => p,
                None => default_report_path(format),
            },
        }
    } else {
        DoctorModel::Default { limit: limit_or(parts, 5) }
    }
}

/// Where the first word of `parts` among `names` stands, from `i` on.
proof fn lemma_first_named(parts: Seq<Seq<char>>, names: Seq<Seq<char>>, i: int)
    requires
        0 <= i,
    ensures
        first_named(parts, names, i) matches Some(k) ==> i <= k < parts.len() && names.contains(
            parts[k],
        ) && forall|j: int| i <= j < k ==> !names.contains(#[trigger] parts[j]),
        first_named(parts, names, i) is None ==> forall|j: int|
            i <= j < parts.len() ==> !names.contains(#[trigger] parts[j]),
    decreases parts.len() + 1 - i,
{
    if i < parts.len() && !names.contains(parts[i]) {
        lemma_first_named(parts, names, i + 1);
    }
}

/// A two-name flag set holds exactly its two names.
proof fn lemma_two_names(a: Seq<char>, b: Seq<char>, w: Seq<char>)
    ensures
        seq![a, b].contains(w) == (w == a || w == b),
{
    let n = seq![a, b];
    if w == a {
        assert(n[0] == w);
    }
    if w == b {
        assert(n[1] == w);
    }
}

/// Law: how an export command line is read. Take its words `parts` (the
/// whitespace-separated words of the trimmed line). When no word is
/// `--stats` or `-s`, the first `--search` or `-q` word (if any) is the last
/// word, and the first `--export` or `-e` word stands at `e` with a word
/// after it, the command is an export in the format of that next word,
/// lower-cased. Its output path is the word after the first `--out` or `-o`
/// word when a word follows that one; when no word does, or there is no
/// such word, it is `ghost_report.json` for the format `json` and
/// `ghost_report.md` for any other.
pub proof fn law_export_command(raw: Seq<char>, parts: Seq<Seq<char>>, e: int)
    requires
        parts == words(trim(raw)),
        forall|i: int| 0 <= i < parts.len() ==> #[trigger] parts[i] != "--stats"@ && parts[i] != "-s"@,
        forall|i: int|
            0 <= i < parts.len() && (#[trigger] parts[i] == "--search"@ || parts[i] == "-q"@) && (
            forall|j: int| 0 <= j < i ==> parts[j] != "--search"@ && parts[j] != "-q"@) ==> i + 1
                == parts.len(),
        0 <= e,
        e + 1 < parts.len(),
        parts[e] == "--export"@ || parts[e] == "-e"@,
        forall|j: int| 0 <= j < e ==> #[trigger] parts[j] != "--export"@ && parts[j] != "-e"@,
    ensures
        parse_doctor(raw) is Export,
        parse_doctor(raw)->format == unicode_lowercase(parts[e + 1]),
        forall|o: int|
            0 <= o && o + 1 < parts.len() && (#[trigger] parts[o] == "--out"@ || parts[o] == "-o"@)
                && (forall|j: int| 0 <= j < o ==> parts[j] != "--out"@ && parts[j] != "-o"@)
                ==> parse_doctor(raw)->out_path == parts[o + 1],
        (forall|o: int|
            0 <= o < parts.len() && (#[trigger] parts[o] == "--out"@ || parts[o] == "-o"@) && (
            forall|j: int| 0 <= j < o ==> parts[j] != "--out"@ && parts[j] != "-o"@) ==> o + 1
                == parts.len()) ==> parse_doctor(raw)->out_path == (if unicode_lowercase(
            parts[e + 1],
        ) == "json"@ {
            "ghost_report.json"@
        } else {
            "ghost_report.md"@
        }),
{
    assert forall|w: Seq<char>| #[trigger] stats_flags().contains(w) == (w == "--stats"@ || w == "-s"@) by {
        lemma_two_names("--stats"@, "-s"@, w);
    }
    assert forall|w: Seq<char>| #[trigger] search_flags().contains(w) == (w == "--search"@ || w == "-q"@) by {
        lemma_two_names("--search"@, "-q"@, w);
    }
    assert forall|w: Seq<char>| #[trigger] export_flags().contains(w) == (w == "--export"@ || w == "-e"@) by {
        lemma_two_names("--export"@, "-e"@, w);
    }
    assert forall|w: Seq<char>| #[trigger] out_flags().contains(w) == (w == "--out"@ || w == "-o"@) by {
        lemma_two_names("--out"@, "-o"@, w);
    }
    lemma_first_named(parts, stats_flags(), 0);
    lemma_first_named(parts, search_flags(), 0);
    lemma_first_named(parts, export_flags(), 0);
    lemma_first_named(parts, out_flags(), 0);
    assert(first_named(parts, stats_flags(), 0) is None) by {
        if let Some(k) = first_named(parts, stats_flags(), 0) {
            assert(stats_flags().contains(parts[k]));
        }
    }
    assert(search_start(parts) is None) by {
        if let Some(k) = first_named(parts, search_flags(), 0) {
            assert(search_flags().contains(parts[k]));
            assert forall|j: int| 0 <= j < k implies parts[j] != "--search"@ && parts[j] != "-q"@ by {
                assert(!search_flags().contains(parts[j]));
            }
        }
    }
    assert(first_named(parts, export_flags(), 0) == Some(e)) by {
        assert(export_flags().contains(parts[e]));
        if let Some(k) = first_named(parts, export_flags(), 0) {
            if k < e {
                assert(export_flags().contains(parts[k]));
            } else if k > e {
                assert(!export_flags().contains(parts[e]));
            }
        }
    }
    if let Some(k) = first_named(parts, out_flags(), 0) {
        assert(out_flags().contains(parts[k]));
        assert forall|j: int| 0 <= j < k implies parts[j] != "--out"@ && parts[j] != "-o"@ by {
            assert(!out_flags().contains(parts[j]));
        }
        assert forall|o: int|
            0 <= o && o + 1 < parts.len() && (#[trigger] parts[o] == "--out"@ || parts[o] == "-o"@)
                && (forall|j: int| 0 <= j < o ==> parts[j] != "--out"@ && parts[j] != "-o"@)
                implies o == k by {
            if o < k {
                assert(!out_flags().contains(parts[o]));
            } else if k < o {
                assert(parts[k] != "--out"@ && parts[k] != "-o"@);
            }
        }
    } else {
        assert forall|o: int|
            0 <= o && o + 1 < parts.len() && (#[trigger] parts[o] == "--out"@ || parts[o] == "-o"@)
                implies false by {
            assert(!out_flags().contains(parts[o]));
        }
    }
}

/// A three-name flag set holds exactly its three names.
proof fn lemma_three_names(a: Seq<char>, b: Seq<char>, c: Seq<char>, w: Seq<char>)
    ensures
        seq![a, b, c].contains(w) == (w == a || w == b || w == c),
{
    let n = seq![a, b, c];
    if w == a {
        assert(n[0] == w);
    }
    if w == b {
        assert(n[1] == w);
    }
    if w == c {
        assert(n[2] == w);
    }
}

proof fn lemma_decimal_digits(n: nat)
    ensures
        decimal(n).len() > 0,
        all_dec_digits(decimal(n)),
        char_digits_value(decimal(n)) == n,
    decreases n,
{
    let d = decimal(n);
    let k: nat = n % 10;
    let b: u8 = (48 + k) as u8;
    assert(b == 48 + k);
    assert((b as char) as u32 == b);
    assert(((digit_char(k) as u32) - 48) as nat == k);
    if n < 10 {
        assert(d.drop_last() =~= Seq::<char>::empty());
        assert(d.last() == digit_char(k));
    } else {
        lemma_decimal_digits(n / 10);
        assert(d.drop_last() =~= decimal(n / 10));
        assert forall|i: int| 0 <= i < d.len() implies is_dec_digit(#[trigger] d[i]) by {
            if i < d.len() - 1 {
                assert(d[i] == decimal(n / 10)[i]);
            }
        }
        assert(d.last() == digit_char(k));
        assert(n == (n / 10) * 10 + n % 10) by (nonlinear_arith);
    }
    assert(char_digits_value(d) == char_digits_value(d.drop_last()) * 10 + ((d.last() as u32)
        - 48) as nat);
}

/// A word made of no quote character is its own argument, unquoted.
proof fn lemma_plain_word_query(parts: Seq<Seq<char>>, s: int)
    requires
        0 <= s < parts.len(),
        forall|i: int| 0 <= i < parts[s].len() ==> !is_quote(#[trigger] parts[s][i]),
    ensures
        search_query(parts, s) == parts[s],
{
    let w = parts[s];
    assert(parts.subrange(s, s + 1) =~= seq![w]);
    let (a0, a1) = lemma_trim_window(w, TrimSet::Only('"'));
    if a0 < a1 {
        assert(!in_trim_set(TrimSet::Only('"'), w[a0]));
    }
    if w.len() > 0 {
        assert(!is_quote(w[0]) && !is_quote(w[w.len() - 1]));
        assert(a0 == 0);
        assert(a1 == w.len());
    }
    assert(trim_by(w, TrimSet::Only('"')) =~= w);
    let (b0, b1) = lemma_trim_window(w, TrimSet::Only('\''));
    if w.len() > 0 {
        assert(b0 == 0);
        assert(b1 == w.len());
    }
    assert(trim_by(w, TrimSet::Only('\'')) =~= w);
}

/// Law: how a search command line is read. Take its words `parts`. When no
/// word is `--stats` or `-s` and the first `--search` or `-q` word stands at
/// `q` followed by a word without quote characters, the command searches
/// for that word. Its limit is `n` when the first `--limit`, `-l` or `-n`
/// word is followed by the decimal digits of `n` (up to `usize::MAX`), and
/// 10 when no word is such a flag.
pub proof fn law_search_command(raw: Seq<char>, parts: Seq<Seq<char>>, q: int)
    requires
        parts == words(trim(raw)),
        forall|i: int| 0 <= i < parts.len() ==> #[trigger] parts[i] != "--stats"@ && parts[i] != "-s"@,
        0 <= q,
        q + 1 < parts.len(),
        parts[q] == "--search"@ || parts[q] == "-q"@,
        forall|j: int| 0 <= j < q ==> #[trigger] parts[j] != "--search"@ && parts[j] != "-q"@,
        forall|i: int|
            0 <= i < parts[q + 1].len() ==> #[trigger] parts[q + 1][i] != '"' && parts[q + 1][i]
                != '\'',
    ensures
        parse_doctor(raw) is Search,
        parse_doctor(raw)->query == parts[q + 1],
        forall|l: int, n: nat|
            #![trigger parts[l], decimal(n)]
            0 <= l && l + 1 < parts.len() && (parts[l] == "--limit"@ || parts[l] == "-l"@
                || parts[l] == "-n"@) && (forall|j: int|
                0 <= j < l ==> parts[j] != "--limit"@ && parts[j] != "-l"@ && parts[j] != "-n"@)
                && parts[l + 1] == decimal(n) && n <= usize::MAX ==> parse_doctor(raw)->Search_limit == n,
        (forall|i: int|
            0 <= i < parts.len() ==> #[trigger] parts[i] != "--limit"@ && parts[i] != "-l"@
                && parts[i] != "-n"@) ==> parse_doctor(raw)->Search_limit == 10,
{
    assert forall|w: Seq<char>| #[trigger] stats_flags().contains(w) == (w == "--stats"@ || w == "-s"@) by {
        lemma_two_names("--stats"@, "-s"@, w);
    }
    assert forall|w: Seq<char>| #[trigger] search_flags().contains(w) == (w == "--search"@ || w == "-q"@) by {
        lemma_two_names("--search"@, "-q"@, w);
    }
    assert forall|w: Seq<char>| #[trigger] limit_flags().contains(w) == (w == "--limit"@ || w == "-l"@
        || w == "-n"@) by {
        lemma_three_names("--limit"@, "-l"@, "-n"@, w);
    }
    lemma_first_named(parts, stats_flags(), 0);
    lemma_first_named(parts, search_flags(), 0);
    lemma_first_named(parts, limit_flags(), 0);
    assert(first_named(parts, stats_flags(), 0) is None) by {
        if let Some(k) = first_named(parts, stats_flags(), 0) {
            assert(stats_flags().contains(parts[k]));
        }
    }
    assert(first_named(parts, search_flags(), 0) == Some(q)) by {
        assert(search_flags().contains(parts[q]));
        if let Some(k) = first_named(parts, search_flags(), 0) {
            if k < q {
                assert(search_flags().contains(parts[k]));
            } else if k > q {
                assert(!search_flags().contains(parts[q]));
            }
        }
    }
    lemma_plain_word_query(parts, q + 1);
    assert forall|l: int, n: nat|
        #![trigger parts[l], decimal(n)]
        0 <= l && l + 1 < parts.len() && (parts[l] == "--limit"@ || parts[l] == "-l"@
            || parts[l] == "-n"@) && (forall|j: int|
            0 <= j < l ==> parts[j] != "--limit"@ && parts[j] != "-l"@ && parts[j] != "-n"@)
            && parts[l + 1] == decimal(n) && n <= usize::MAX implies parse_doctor(raw)->Search_limit
        == n by {
        assert(limit_flags().contains(parts[l]));
        if let Some(k) = first_named(parts, limit_flags(), 0) {
            if k < l {
                assert(limit_flags().contains(parts[k]));
            } else if k > l {
                assert(!limit_flags().contains(parts[l]));
            }
        }
        lemma_decimal_digits(n);
        assert(decimal(n)[0] != '+');
        assert(unsigned_digits(decimal(n)) == decimal(n));
    }
    if forall|i: int|
        0 <= i < parts.len() ==> #[trigger] parts[i] != "--limit"@ && parts[i] != "-l"@ && parts[i]
            != "-n"@ {
        if let Some(k) = first_named(parts, limit_flags(), 0) {
            assert(limit_flags().contains(parts[k]));
        }
    }
}

/// A `ghost doctor` invocation.
#[derive(Debug, PartialEq, Eq)]
pub enum DoctorCommand {
    /// Show the most recent failures.
    Default { limit: usize },
    /// Search past failures.
    Search { query: String, limit: usize },
    /// Show aggregate statistics.
    Stats,
    /// Write a report file.
    Export { format: String, out_path: String },
}

impl View for DoctorCommand {
    type V = DoctorModel;

    open spec fn view(&self) -> DoctorModel {
        match self {
            DoctorCommand::Default { limit } => DoctorModel::Default { limit: *limit },
            DoctorCommand::Search { query, limit } => DoctorModel::Search {
                query: query@,
                limit: *limit,
            },
            DoctorCommand::Stats => DoctorModel::Stats,
            DoctorCommand::Export { format, out_path } => DoctorModel::Export {
                format: format@,
                out_path: out_path@,
            },
        }
    }
}

fn names_of2(a: &str, b: &str) -> (v: Vec<Vec<char>>)
    ensures
        views(v@) == seq![a@, b@],
{
    let mut v: Vec<Vec<char>> = Vec::new();
    v.push(chars_of(a));
    v.push(chars_of(b));
    proof {
        assert(views(v@) =~= seq![a@, b@]);
    }
    v
}

fn is_named(p: &Vec<char>, names: &Vec<Vec<char>>) -> (r: bool)
    ensures
        r == views(names@).contains(p@),
{
    let mut k: usize = 0;
    while k < names.len()
        invariant
            k <= names@.len(),
            forall|j: int| 0 <= j < k ==> views(names@)[j] != p@,
        decreases names@.len() - k,
    {
        if chars_equal(&names[k], p) {
            proof {
                assert(views(names@)[k as int] == p@);
            }
            return true;
        }
        k = k + 1;
    }
    false
}

fn find_named(parts: &Vec<Vec<char>>, names: &Vec<Vec<char>>) -> (r: Option<usize>)
    ensures
        r matches Some(i) ==> first_named(views(parts@), views(names@), 0) == Some(i as int),
        r matches Some(i) ==> i < parts@.len(),
        r is None ==> first_named(views(parts@), views(names@), 0) is None,
{
    let mut i: usize = 0;
    while i < parts.len()
        invariant
            i <= parts@.len(),
            first_named(views(parts@), views(names@), 0) == first_named(
                views(parts@),
                views(names@),
                i as int,
            ),
        decreases parts@.len() - i,
    {
        if is_named(&parts[i], names) {
            return Some(i);
        }
        i = i + 1;
    }
    None
}

/// The part after the first flag among `names`.
fn find_flag_value(parts: &Vec<Vec<char>>, names: &Vec<Vec<char>>) -> (r: Option<Vec<char>>)
    ensures
        r matches Some(v) ==> flag_value(views(parts@), views(names@)) == Some(v@),
        r is None ==> flag_value(views(parts@), views(names@)) is None,
{
    match find_named(parts, names) {
        Some(p) => {
            if parts.len() - p > 1 {
                Some(parts[p + 1].clone())
            } else {
                None
            }
        },
        None => None,
    }
}

/// First word at or after position `i` that ends with `q`.
fn find_closing_word(parts: &Vec<Vec<char>>, q: char, i: usize) -> (r: Option<usize>)
    ensures
        r matches Some(k) ==> closing_word(views(parts@), q, i as int) == Some(k as int) && k
            < parts@.len(),
        r is None ==> closing_word(views(parts@), q, i as int) is None,
{
    let mut k: usize = i;
    while k < parts.len()
        invariant
            i <= k,
            closing_word(views(parts@), q, i as int) == closing_word(views(parts@), q, k as int),
        decreases parts@.len() - k,
    {
        let w = &parts[k];
        if w.len() > 0 && w[w.len() - 1] == q {
            return Some(k);
        }
        k = k + 1;
    }
    None
}

/// The words of the argument starting at word `s`, joined with spaces.
fn search_argument(parts: &Vec<Vec<char>>, s: usize) -> (r: Vec<char>)
    requires
        s < parts.len(),
    ensures
        r@ == join_words(views(parts@).subrange(s as int, argument_end(views(parts@), s as int) + 1)),
{
    let ghost pv = views(parts@);
    let w = &parts[s];
    let end: usize = if w.len() > 0 && (w[0] == '"' || w[0] == '\'') && !(w.len() >= 2 && w[w.len()
        - 1] == w[0]) {
        match find_closing_word(parts, w[0], s + 1) {
            Some(k) => k,
            None => s,
        }
    } else {
        s
    };
    proof {
        assert(pv[s as int] == w@);
        if w@.len() > 0 {
            lemma_closing_word(pv, w@[0], s + 1);
        }
        assert(end as int == argument_end(pv, s as int));
    }
    let mut r: Vec<char> = Vec::new();
    let mut k: usize = s;
    while k <= end
        invariant
            pv == views(parts@),
            s <= k <= end + 1,
            end < parts.len(),
            k > s ==> r@ == join_words(pv.subrange(s as int, k as int)),
            k == s ==> r@ == Seq::<char>::empty(),
        decreases end + 1 - k,
    {
        let ghost pre = r@;
        if k > s {
            r.push(' ');
        }
        let wk = &parts[k];
        let mut j: usize = 0;
        while j < wk.len()
            invariant
                j <= wk@.len(),
                r@ == (if k > s {
                    pre + seq![' ']
                } else {
                    pre
                }) + wk@.subrange(0, j as int),
            decreases wk@.len() - j,
        {
            r.push(wk[j]);
            j = j + 1;
        }
        proof {
            assert(wk@.subrange(0, wk@.len() as int) =~= wk@);
            assert(pv[k as int] == wk@);
            let ws = pv.subrange(s as int, k + 1);
            assert(ws.drop_last() =~= pv.subrange(s as int, k as int));
            assert(ws.last() == wk@);
            if k == s {
                assert(r@ =~= join_words(ws));
            } else {
                assert(r@ =~= join_words(ws));
            }
        }
        k = k + 1;
    }
    r
}

proof fn lemma_closing_word(parts: Seq<Seq<char>>, q: char, i: int)
    ensures
        closing_word(parts, q, i) matches Some(k) ==> i <= k < parts.len(),
    decreases parts.len() - i,
{
    if 0 <= i < parts.len() && !(parts[i].len() > 0 && parts[i].last() == q) {
        lemma_closing_word(parts, q, i + 1);
    }
}

/// `usize::from_str` on a text.
fn parse_usize_chars(s: &Vec<char>) -> (r: Option<usize>)
    ensures
        r == parse_usize(s@),
{
    let start: usize = if s.len() > 0 && s[0] == '+' {
        1
    } else {
        0
    };
    let ghost d = unsigned_digits(s@);
    proof {
        assert(d =~= s@.subrange(start as int, s@.len() as int));
    }
    if start == s.len() {
        return None;
    }
    let cap: u128 = (usize::MAX as u128) + 1;
    let mut acc: u128 = 0;
    let mut k: usize = start;
    while k < s.len()
        invariant
            start <= k <= s@.len(),
            d == s@.subrange(start as int, s@.len() as int),
            d == unsigned_digits(s@),
            cap == usize::MAX + 1,
            forall|i: int| start <= i < k ==> is_dec_digit(#[trigger] s@[i]),
            acc == (if char_digits_value(s@.subrange(start as int, k as int)) < cap {
                char_digits_value(s@.subrange(start as int, k as int))
            } else {
                cap as nat
            }),
        decreases s@.len() - k,
    {
        let c = s[k];
        if !('0' <= c && c <= '9') {
            proof {
                assert(d[k - start] == c);
                assert(!is_dec_digit(d[k - start]));
            }
            return None;
        }
        proof {
            let t = s@.subrange(start as int, k + 1);
            assert(t.drop_last() =~= s@.subrange(start as int, k as int));
            assert(t.last() == c);
        }
        let dv: u128 = (c as u32 - 48) as u128;
        if acc < cap {
            let next: u128 = acc * 10 + dv;
            acc = if next < cap {
                next
            } else {
                cap
            };
        }
        k = k + 1;
    }
    proof {
        assert(s@.subrange(start as int, k as int) =~= d);
        assert forall|i: int| 0 <= i < d.len() implies is_dec_digit(#[trigger] d[i]) by {
            assert(d[i] == s@[i + start]);
        }
    }
    if acc < cap {
        Some(acc as usize)
    } else {
        None
    }
}

impl DoctorCommand {
    /// Reads a `ghost doctor` command line: `--stats`/`-s`; `--search`/`-q`
    /// with a query (default limit 10); `--export`/`-e` with a format and
    /// an optional `--out`/`-o` path; otherwise the recent failures
    /// (default limit 5). `--limit`/`-l`/`-n` sets the limit.
    pub fn parse(raw_cmd: &str) -> (cmd: Self)
        ensures
            cmd@ == parse_doctor(raw_cmd@),
    {
        let raw = chars_of(raw_cmd);
        let t = trim_chars(&raw, TrimSet::Whitespace);
        let parts = split_whitespace(&t);
        let ghost pv = views(parts@);
        let stats = names_of2("--stats", "-s");
        if find_named(&parts, &stats).is_some() {
            return DoctorCommand::Stats;
        }
        let search = names_of2("--search", "-q");
        match find_named(&parts, &search) {
            Some(p) if parts.len() - p > 1 => {
                let q = search_argument(&parts, p + 1);
                let q1 = trim_chars(&q, TrimSet::Only('"'));
                let q2 = trim_chars(&q1, TrimSet::Only('\''));
                let limit = match Self::extract_limit(&parts) {
                    Some(l) => l,
                    None => 10,
                };
                return DoctorCommand::Search { query: string_from_chars(&q2), limit };
            },
            _ => {},
        }
        let export = names_of2("--export", "-e");
        match find_flag_value(&parts, &export) {
            Some(f) => {
                let fs = string_from_chars(&f);
                let format = to_lowercase(fs.as_str());
                let out = names_of2("--out", "-o");
                let out_path = match find_flag_value(&parts, &out) {
                    Some(p) => string_from_chars(&p),
                    None => {
                        let fc = chars_of(format.as_str());
                        if chars_eq_str(&fc, "json") {
                            String::from_str("ghost_report.json")
                        } else {
                            String::from_str("ghost_report.md")
                        }
                    },
                };
                return DoctorCommand::Export { format, out_path };
            },
            None => {},
        }
        let limit = match Self::extract_limit(&parts) {
            Some(l) => l,
            None => 5,
        };
        DoctorCommand::Default { limit }
    }

    /// The number after `--limit`, `-l` or `-n`, when there is one and it
    /// parses.
    pub fn extract_limit(parts: &Vec<Vec<char>>) -> (r: Option<usize>)
        ensures
            r == limit_arg(views(parts@)),
    {
        let mut names: Vec<Vec<char>> = Vec::new();
        names.push(chars_of("--limit"));
        names.push(chars_of("-l"));
        names.push(chars_of("-n"));
        proof {
            assert(views(names@) =~= limit_flags());
        }
        match find_flag_value(parts, &names) {
            Some(v) => parse_usize_chars(&v),
            None => None,
        }
    }
}

// ---------------------------------------------------------------------------
// Reports
// ---------------------------------------------------------------------------

/// The text of an optional field, or `default` when it is absent.
pub open spec fn text_or(o: Option<String>, default: Seq<char>) -> Seq<char> {
    match o {
        Some(s) => s@,
        None => default,
    }
}

/// One failure in the history listing.
pub open spec fn history_entry(r: HistoryRecord) -> Seq<char> {
    "\x1b[33m["@ + r.timestamp@ + "]\x1b[0m \x1b[1mCommand:\x1b[0m "@ + r.command@
        + " \x1b[90m(Exit: "@ + signed_decimal(r.exit_code as int) + ", Engine: "@ + text_or(
        r.engine_source,
        "unknown"@,
    ) + ", Workspace: "@ + text_or(r.workspace, "global"@) + ")\x1b[0m\r\n  \x1b[36mDiagnosis:\x1b[0m "@
        + r.diagnosis@ + "\r\n  \x1b[32mSuggested Fix:\x1b[0m "@ + r.suggested_fix@
        + "\r\n\r\n"@
}

/// The history listing: one entry per failure, or a note that there are none.
pub open spec fn history_table(h: HistoryResponse) -> Seq<char> {
    if h.history@.len() == 0 {
        "No intercepted failures found.\r\n"@
    } else {
        concat_map(h.history@, |r: HistoryRecord| history_entry(r))
    }
}

pub open spec fn command_stat_line(c: CommandStat) -> Seq<char> {
    "  - \x1b[1m"@ + c.command@ + "\x1b[0m ("@ + signed_decimal(c.failure_count as int)
        + " failures)\r\n"@
}

pub open spec fn workspace_stat_line(w: WorkspaceStat) -> Seq<char> {
    "  - \x1b[90m"@ + w.workspace@ + "\x1b[0m: "@ + signed_decimal(w.failure_count as int)
        + " failures\r\n"@
}

pub open spec fn engine_line(e: EngineCount) -> Seq<char> {
    "  - \x1b[1m"@ + e.engine@ + "\x1b[0m: "@ + signed_decimal(e.count as int) + " calls\r\n"@
}

/// The statistics summary.
pub open spec fn stats_summary(st: DoctorStatsResponse) -> Seq<char> {
    "\x1b[1mTotal Intercepted Failures:\x1b[0m "@ + signed_decimal(st.total_failures as int)
        + "\r\n\r\n"@ + "\x1b[33;1mTop Failing Commands:\x1b[0m\r\n"@ + command_section(st)
        + "\r\n\x1b[34;1mWorkspace Failure Distribution:\x1b[0m\r\n"@ + workspace_section(st)
        + "\r\n\x1b[36;1mAI Engine Invocations:\x1b[0m\r\n"@ + concat_map(
        st.engine_sources@,
        |e: EngineCount| engine_line(e),
    ) + "\r\n"@
}

/// The summary's text before its first command line.
pub open spec fn stats_head(st: DoctorStatsResponse) -> Seq<char> {
    "\x1b[1mTotal Intercepted Failures:\x1b[0m "@ + signed_decimal(st.total_failures as int)
        + "\r\n\r\n"@ + "\x1b[33;1mTop Failing Commands:\x1b[0m\r\n"@
}

/// One line per top failing command, in list order.
pub open spec fn command_lines(st: DoctorStatsResponse) -> Seq<char> {
    concat_map(st.top_failing_commands@, |c: CommandStat| command_stat_line(c))
}

/// One line per workspace, in list order.
pub open spec fn workspace_lines(st: DoctorStatsResponse) -> Seq<char> {
    concat_map(st.workspace_breakdown@, |w: WorkspaceStat| workspace_stat_line(w))
}

/// One line per engine, in list order.
pub open spec fn engine_lines(st: DoctorStatsResponse) -> Seq<char> {
    concat_map(st.engine_sources@, |e: EngineCount| engine_line(e))
}

pub open spec fn workspace_heading() -> Seq<char> {
    "\r\n\x1b[34;1mWorkspace Failure Distribution:\x1b[0m\r\n"@
}

pub open spec fn engine_heading() -> Seq<char> {
    "\r\n\x1b[36;1mAI Engine Invocations:\x1b[0m\r\n"@
}

/// Where the line of command `i` starts in a summary that lists commands.
pub open spec fn command_line_at(st: DoctorStatsResponse, i: int) -> int {
    (stats_head(st).len() + concat_map(
        st.top_failing_commands@.take(i),
        |c: CommandStat| command_stat_line(c),
    ).len()) as int
}

/// Where the line of workspace `i` starts in a summary that lists commands
/// and workspaces.
pub open spec fn workspace_line_at(st: DoctorStatsResponse, i: int) -> int {
    ((stats_head(st) + command_lines(st) + workspace_heading()).len() + concat_map(
        st.workspace_breakdown@.take(i),
        |w: WorkspaceStat| workspace_stat_line(w),
    ).len()) as int
}

/// Where the line of engine `i` starts in a summary that lists commands and
/// workspaces.
pub open spec fn engine_line_at(st: DoctorStatsResponse, i: int) -> int {
    ((stats_head(st) + command_lines(st) + workspace_heading() + workspace_lines(st)
        + engine_heading()).len() + concat_map(
        st.engine_sources@.take(i),
        |e: EngineCount| engine_line(e),
    ).len()) as int
}

proof fn lemma_occurs_inside(a: Seq<char>, b: Seq<char>, c: Seq<char>, x: Seq<char>, k: int)
    requires
        occurs_at(b, x, k),
    ensures
        occurs_at(a + b + c, x, a.len() + k),
{
    assert((a + b + c).subrange(a.len() + k, a.len() + k + x.len()) =~= b.subrange(k, k + x.len()));
}

/// Law: when commands and workspaces are on record, the summary is its
/// heading, the line of every command, the workspace heading, the line of
/// every workspace, the engine heading and the line of every engine, with
/// no `(None recorded)` placeholder in place of either list. Each line
/// stands at its place, within a section in the order of its list, and the
/// commands come before the workspaces, which come before the engines.
pub proof fn law_stats_layout(st: DoctorStatsResponse)
    requires
        st.top_failing_commands@.len() > 0,
        st.workspace_breakdown@.len() > 0,
    ensures
        stats_summary(st) == stats_head(st) + command_lines(st) + workspace_heading()
            + workspace_lines(st) + engine_heading() + engine_lines(st) + "\r\n"@,
        forall|i: int|
            0 <= i < st.top_failing_commands@.len() ==> occurs_at(
                stats_summary(st),
                command_stat_line(st.top_failing_commands@[i]),
                #[trigger] command_line_at(st, i),
            ),
        forall|i: int, j: int|
            0 <= i < j < st.top_failing_commands@.len() ==> #[trigger] command_line_at(st, i)
                + command_stat_line(st.top_failing_commands@[i]).len() <= #[trigger] command_line_at(
                st,
                j,
            ),
        forall|i: int|
            0 <= i < st.workspace_breakdown@.len() ==> occurs_at(
                stats_summary(st),
                workspace_stat_line(st.workspace_breakdown@[i]),
                #[trigger] workspace_line_at(st, i),
            ),
        forall|i: int, j: int|
            0 <= i < j < st.workspace_breakdown@.len() ==> #[trigger] workspace_line_at(st, i)
                + workspace_stat_line(st.workspace_breakdown@[i]).len()
                <= #[trigger] workspace_line_at(st, j),
        forall|i: int|
            0 <= i < st.engine_sources@.len() ==> occurs_at(
                stats_summary(st),
                engine_line(st.engine_sources@[i]),
                #[trigger] engine_line_at(st, i),
            ),
        forall|i: int, j: int|
            0 <= i < j < st.engine_sources@.len() ==> #[trigger] engine_line_at(st, i)
                + engine_line(st.engine_sources@[i]).len() <= #[trigger] engine_line_at(st, j),
        forall|i: int, j: int|
            0 <= i < st.top_failing_commands@.len() && 0 <= j < st.workspace_breakdown@.len()
                ==> #[trigger] command_line_at(st, i) + command_stat_line(
                st.top_failing_commands@[i],
            ).len() <= #[trigger] workspace_line_at(st, j),
        forall|i: int, j: int|
            0 <= i < st.workspace_breakdown@.len() && 0 <= j < st.engine_sources@.len()
                ==> #[trigger] workspace_line_at(st, i) + workspace_stat_line(
                st.workspace_breakdown@[i],
            ).len() <= #[trigger] engine_line_at(st, j),
{
    let cs = st.top_failing_commands@;
    let ws = st.workspace_breakdown@;
    let es = st.engine_sources@;
    let fc = |c: CommandStat| command_stat_line(c);
    let fw = |w: WorkspaceStat| workspace_stat_line(w);
    let fe = |e: EngineCount| engine_line(e);
    let whole = stats_summary(st);
    assert(whole =~= stats_head(st) + command_lines(st) + workspace_heading() + workspace_lines(st)
        + engine_heading() + engine_lines(st) + "\r\n"@);
    let before_ws = stats_head(st) + command_lines(st) + workspace_heading();
    let before_es = before_ws + workspace_lines(st) + engine_heading();
    assert(cs.take(cs.len() as int) =~= cs);
    assert(ws.take(ws.len() as int) =~= ws);
    assert forall|i: int| 0 <= i < cs.len() implies occurs_at(
        whole,
        command_stat_line(cs[i]),
        #[trigger] command_line_at(st, i),
    ) && (forall|j: int| i < j <= cs.len() ==> command_line_at(st, i) + command_stat_line(cs[i]).len()
        <= #[trigger] command_line_at(st, j)) by {
        lemma_concat_map_entry(cs, fc, i);
        assert(whole =~= stats_head(st) + command_lines(st) + (workspace_heading() + workspace_lines(
            st,
        ) + engine_heading() + engine_lines(st) + "\r\n"@));
        lemma_occurs_inside(
            stats_head(st),
            command_lines(st),
            workspace_heading() + workspace_lines(st) + engine_heading() + engine_lines(st)
                + "\r\n"@,
            command_stat_line(cs[i]),
            concat_map(cs.take(i), fc).len() as int,
        );
    }
    assert forall|i: int| 0 <= i < ws.len() implies occurs_at(
        whole,
        workspace_stat_line(ws[i]),
        #[trigger] workspace_line_at(st, i),
    ) && (forall|j: int| i < j <= ws.len() ==> workspace_line_at(st, i) + workspace_stat_line(ws[i]).len()
        <= #[trigger] workspace_line_at(st, j)) by {
        lemma_concat_map_entry(ws, fw, i);
        assert(whole =~= before_ws + workspace_lines(st) + (engine_heading() + engine_lines(st)
            + "\r\n"@));
        lemma_occurs_inside(
            before_ws,
            workspace_lines(st),
            engine_heading() + engine_lines(st) + "\r\n"@,
            workspace_stat_line(ws[i]),
            concat_map(ws.take(i), fw).len() as int,
        );
    }
    assert forall|i: int| 0 <= i < es.len() implies occurs_at(
        whole,
        engine_line(es[i]),
        #[trigger] engine_line_at(st, i),
    ) && (forall|j: int| i < j <= es.len() ==> engine_line_at(st, i) + engine_line(es[i]).len()
        <= #[trigger] engine_line_at(st, j)) by {
        lemma_concat_map_entry(es, fe, i);
        assert(whole =~= before_es + engine_lines(st) + "\r\n"@);
        lemma_occurs_inside(
            before_es,
            engine_lines(st),
            "\r\n"@,
            engine_line(es[i]),
            concat_map(es.take(i), fe).len() as int,
        );
    }
    assert forall|i: int, j: int|
        0 <= i < cs.len() && 0 <= j < ws.len() implies #[trigger] command_line_at(st, i)
        + command_stat_line(cs[i]).len() <= #[trigger] workspace_line_at(st, j) by {
        assert(command_line_at(st, i) + command_stat_line(cs[i]).len() <= command_line_at(
            st,
            cs.len() as int,
        ));
    }
    assert forall|i: int, j: int|
        0 <= i < ws.len() && 0 <= j < es.len() implies #[trigger] workspace_line_at(st, i)
        + workspace_stat_line(ws[i]).len() <= #[trigger] engine_line_at(st, j) by {
        assert(workspace_line_at(st, i) + workspace_stat_line(ws[i]).len() <= workspace_line_at(
            st,
            ws.len() as int,
        ));
    }
}

/// A text for a Markdown table cell: every `|` escaped as `\|`.
pub open spec fn escape_pipes(s: Seq<char>) -> Seq<char> {
    concat_map(
        s,
        |c: char|
            if c == '|' {
                seq!['\\', '|']
            } else {
                seq![c]
            },
    )
}

/// Law: an escaped cell cannot end early: every `|` in it comes right after
/// a backslash, so the report's rows keep their columns whatever the
/// commands and diagnoses contain.
pub proof fn law_pipes_escaped(s: Seq<char>)
    ensures
        forall|i: int|
            0 <= i < escape_pipes(s).len() && #[trigger] escape_pipes(s)[i] == '|' ==> i > 0
                && escape_pipes(s)[i - 1] == '\\',
    decreases s.len(),
{
    if s.len() > 0 {
        let f = |c: char|
            if c == '|' {
                seq!['\\', '|']
            } else {
                seq![c]
            };
        law_pipes_escaped(s.drop_last());
        let pre = escape_pipes(s.drop_last());
        let e = escape_pipes(s);
        assert(e == pre + f(s.last()));
        assert forall|i: int| 0 <= i < e.len() && #[trigger] e[i] == '|' implies i > 0 && e[i - 1]
            == '\\' by {
            if i < pre.len() {
                assert(e[i] == pre[i]);
                assert(e[i - 1] == pre[i - 1]);
            }
        }
    }
}

/// One failure as a row of the Markdown report.
pub open spec fn markdown_row(r: HistoryRecord) -> Seq<char> {
    "| "@ + r.timestamp@ + " | `"@ + escape_pipes(r.command@) + "` | "@ + signed_decimal(
        r.exit_code as int,
    ) + " | "@ + text_or(r.engine_source, "unknown"@) + " | "@ + escape_pipes(r.diagnosis@)
        + " | `"@ + escape_pipes(r.suggested_fix@) + "` |\n"@
}

/// The Markdown audit report.
pub open spec fn markdown_report(h: HistoryResponse) -> Seq<char> {
    "# \u{1F47B} Ghost in the Shell \u{2014} Audit Report\n\n"@ + "Total Records: "@ + decimal(
        h.count as nat,
    ) + "\n\n"@ + "| Timestamp | Command | Exit Code | Engine | Diagnosis | Fix |\n"@
        + "|---|---|---|---|---|---|\n"@ + concat_map(
        h.history@,
        |r: HistoryRecord| markdown_row(r),
    )
}

fn push_text_or(out: &mut Vec<char>, o: &Option<String>, default: &str)
    ensures
        final(out)@ == old(out)@ + text_or(*o, default@),
{
    match o {
        Some(s) => push_str(out, s.as_str()),
        None => push_str(out, default),
    }
}

fn push_history_entry(out: &mut Vec<char>, r: &HistoryRecord)
    ensures
        final(out)@ == old(out)@ + history_entry(*r),
{
    push_str(out, "\x1b[33m[");
    push_str(out, r.timestamp.as_str());
    push_str(out, "]\x1b[0m \x1b[1mCommand:\x1b[0m ");
    push_str(out, r.command.as_str());
    push_str(out, " \x1b[90m(Exit: ");
    push_int(out, r.exit_code as i64);
    push_str(out, ", Engine: ");
    push_text_or(out, &r.engine_source, "unknown");
    push_str(out, ", Workspace: ");
    push_text_or(out, &r.workspace, "global");
    push_str(out, ")\x1b[0m\r\n  \x1b[36mDiagnosis:\x1b[0m ");
    push_str(out, r.diagnosis.as_str());
    push_str(out, "\r\n  \x1b[32mSuggested Fix:\x1b[0m ");
    push_str(out, r.suggested_fix.as_str());
    push_str(out, "\r\n\r\n");
    proof {
        assert(out@ =~= old(out)@ + history_entry(*r));
    }
}

fn push_history_table(out: &mut Vec<char>, hist: &HistoryResponse)
    ensures
        final(out)@ == old(out)@ + history_table(*hist),
{
    if hist.history.len() == 0 {
        push_str(out, "No intercepted failures found.\r\n");
        return;
    }
    let ghost f = |r: HistoryRecord| history_entry(r);
    let mut i: usize = 0;
    while i < hist.history.len()
        invariant
            f == (|r: HistoryRecord| history_entry(r)),
            i <= hist.history@.len(),
            out@ == old(out)@ + concat_map(hist.history@.subrange(0, i as int), f),
        decreases hist.history@.len() - i,
    {
        push_history_entry(out, &hist.history[i]);
        proof {
            lemma_concat_map_step(hist.history@, f, i as int);
            assert(out@ =~= old(out)@ + concat_map(hist.history@.subrange(0, i + 1), f));
        }
        i = i + 1;
    }
    proof {
        assert(hist.history@.subrange(0, i as int) =~= hist.history@);
    }
}

/// The history listing for the doctor's output.
pub fn format_history_table(hist: &HistoryResponse) -> (s: String)
    ensures
        s@ == history_table(*hist),
{
    let mut out: Vec<char> = Vec::new();
    push_history_table(&mut out, hist);
    proof {
        assert(out@ =~= history_table(*hist));
    }
    string_from_chars(&out)
}

/// The top-failing-commands section of the summary.
pub open spec fn command_section(st: DoctorStatsResponse) -> Seq<char> {
    if st.top_failing_commands@.len() == 0 {
        "  (None recorded)\r\n"@
    } else {
        concat_map(st.top_failing_commands@, |c: CommandStat| command_stat_line(c))
    }
}

/// The workspace section of the summary.
pub open spec fn workspace_section(st: DoctorStatsResponse) -> Seq<char> {
    if st.workspace_breakdown@.len() == 0 {
        "  (None recorded)\r\n"@
    } else {
        concat_map(st.workspace_breakdown@, |w: WorkspaceStat| workspace_stat_line(w))
    }
}

fn push_command_section(out: &mut Vec<char>, stats: &DoctorStatsResponse)
    ensures
        final(out)@ == old(out)@ + command_section(*stats),
{
    if stats.top_failing_commands.len() == 0 {
        push_str(out, "  (None recorded)\r\n");
        return;
    }
    let ghost f = |c: CommandStat| command_stat_line(c);
    let mut i: usize = 0;
    while i < stats.top_failing_commands.len()
        invariant
            f == (|c: CommandStat| command_stat_line(c)),
            i <= stats.top_failing_commands@.len(),
            out@ == old(out)@ + concat_map(stats.top_failing_commands@.subrange(0, i as int), f),
        decreases stats.top_failing_commands@.len() - i,
    {
        let c = &stats.top_failing_commands[i];
        push_str(out, "  - \x1b[1m");
        push_str(out, c.command.as_str());
        push_str(out, "\x1b[0m (");
        push_int(out, c.failure_count);
        push_str(out, " failures)\r\n");
        proof {
            lemma_concat_map_step(stats.top_failing_commands@, f, i as int);
            assert(out@ =~= old(out)@ + concat_map(
                stats.top_failing_commands@.subrange(0, i + 1),
                f,
            ));
        }
        i = i + 1;
    }
    proof {
        assert(stats.top_failing_commands@.subrange(0, i as int) =~= stats.top_failing_commands@);
    }
}

fn push_workspace_section(out: &mut Vec<char>, stats: &DoctorStatsResponse)
    ensures
        final(out)@ == old(out)@ + workspace_section(*stats),
{
    if stats.workspace_breakdown.len() == 0 {
        push_str(out, "  (None recorded)\r\n");
        return;
    }
    let ghost f = |w: WorkspaceStat| workspace_stat_line(w);
    let mut i: usize = 0;
    while i < stats.workspace_breakdown.len()
        invariant
            f == (|w: WorkspaceStat| workspace_stat_line(w)),
            i <= stats.workspace_breakdown@.len(),
            out@ == old(out)@ + concat_map(stats.workspace_breakdown@.subrange(0, i as int), f),
        decreases stats.workspace_breakdown@.len() - i,
    {
        let w = &stats.workspace_breakdown[i];
        push_str(out, "  - \x1b[90m");
        push_str(out, w.workspace.as_str());
        push_str(out, "\x1b[0m: ");
        push_int(out, w.failure_count);
        push_str(out, " failures\r\n");
        proof {
            lemma_concat_map_step(stats.workspace_breakdown@, f, i as int);
            assert(out@ =~= old(out)@ + concat_map(
                stats.workspace_breakdown@.subrange(0, i + 1),
                f,
            ));
        }
        i = i + 1;
    }
    proof {
        assert(stats.workspace_breakdown@.subrange(0, i as int) =~= stats.workspace_breakdown@);
    }
}

fn push_engine_section(out: &mut Vec<char>, stats: &DoctorStatsResponse)
    ensures
        final(out)@ == old(out)@ + concat_map(stats.engine_sources@, |e: EngineCount| engine_line(e)),
{
    let ghost f = |e: EngineCount| engine_line(e);
    let mut i: usize = 0;
    while i < stats.engine_sources.len()
        invariant
            f == (|e: EngineCount| engine_line(e)),
            i <= stats.engine_sources@.len(),
            out@ == old(out)@ + concat_map(stats.engine_sources@.subrange(0, i as int), f),
        decreases stats.engine_sources@.len() - i,
    {
        let e = &stats.engine_sources[i];
        push_str(out, "  - \x1b[1m");
        push_str(out, e.engine.as_str());
        push_str(out, "\x1b[0m: ");
        push_int(out, e.count);
        push_str(out, " calls\r\n");
        proof {
            lemma_concat_map_step(stats.engine_sources@, f, i as int);
            assert(out@ =~= old(out)@ + concat_map(stats.engine_sources@.subrange(0, i + 1), f));
        }
        i = i + 1;
    }
    proof {
        assert(stats.engine_sources@.subrange(0, i as int) =~= stats.engine_sources@);
    }
}

fn push_stats_summary(out: &mut Vec<char>, stats: &DoctorStatsResponse)
    ensures
        final(out)@ == old(out)@ + stats_summary(*stats),
{
    push_str(out, "\x1b[1mTotal Intercepted Failures:\x1b[0m ");
    push_int(out, stats.total_failures);
    push_str(out, "\r\n\r\n");
    push_str(out, "\x1b[33;1mTop Failing Commands:\x1b[0m\r\n");
    push_command_section(out, stats);
    push_str(out, "\r\n\x1b[34;1mWorkspace Failure Distribution:\x1b[0m\r\n");
    push_workspace_section(out, stats);
    push_str(out, "\r\n\x1b[36;1mAI Engine Invocations:\x1b[0m\r\n");
    push_engine_section(out, stats);
    push_str(out, "\r\n");
    proof {
        assert(out@ =~= old(out)@ + stats_summary(*stats));
    }
}

/// The statistics summary for the doctor's output.
pub fn format_stats_summary(stats: &DoctorStatsResponse) -> (s: String)
    requires
        stats.engines_distinct(),
    ensures
        s@ == stats_summary(*stats),
{
    let mut out: Vec<char> = Vec::new();
    push_stats_summary(&mut out, stats);
    proof {
        assert(out@ =~= stats_summary(*stats));
    }
    string_from_chars(&out)
}

fn push_escaped(out: &mut Vec<char>, s: &str)
    ensures
        final(out)@ == old(out)@ + escape_pipes(s@),
{
    let cs = chars_of(s);
    let ghost f = |c: char|
        if c == '|' {
            seq!['\\', '|']
        } else {
            seq![c]
        };
    let mut i: usize = 0;
    while i < cs.len()
        invariant
            f == (|c: char| if c == '|' { seq!['\\', '|'] } else { seq![c] }),
            cs@ == s@,
            i <= cs@.len(),
            out@ == old(out)@ + concat_map(cs@.subrange(0, i as int), f),
        decreases cs@.len() - i,
    {
        let ghost pre = out@;
        if cs[i] == '|' {
            out.push('\\');
            out.push('|');
        } else {
            out.push(cs[i]);
        }
        proof {
            lemma_concat_map_step(cs@, f, i as int);
            assert(out@ =~= pre + f(cs@[i as int]));
        }
        i = i + 1;
    }
    proof {
        assert(cs@.subrange(0, i as int) =~= cs@);
    }
}

fn push_markdown_row(out: &mut Vec<char>, r: &HistoryRecord)
    ensures
        final(out)@ == old(out)@ + markdown_row(*r),
{
    push_str(out, "| ");
    push_str(out, r.timestamp.as_str());
    push_str(out, " | `");
    push_escaped(out, r.command.as_str());
    push_str(out, "` | ");
    push_int(out, r.exit_code as i64);
    push_str(out, " | ");
    push_text_or(out, &r.engine_source, "unknown");
    push_str(out, " | ");
    push_escaped(out, r.diagnosis.as_str());
    push_str(out, " | `");
    push_escaped(out, r.suggested_fix.as_str());
    push_str(out, "` |\n");
    proof {
        assert(out@ =~= old(out)@ + markdown_row(*r));
    }
}

/// The Markdown audit report that `--export markdown` writes.
pub fn export_markdown(hist: &HistoryResponse) -> (s: String)
    ensures
        s@ == markdown_report(*hist),
{
    let mut out: Vec<char> = Vec::new();
    push_str(&mut out, "# \u{1F47B} Ghost in the Shell \u{2014} Audit Report\n\n");
    push_str(&mut out, "Total Records: ");
    push_decimal(&mut out, hist.count as u128);
    push_str(&mut out, "\n\n");
    push_str(&mut out, "| Timestamp | Command | Exit Code | Engine | Diagnosis | Fix |\n");
    push_str(&mut out, "|---|---|---|---|---|---|\n");
    let ghost p = out@;
    let ghost f = |r: HistoryRecord| markdown_row(r);
    let mut i: usize = 0;
    while i < hist.history.len()
        invariant
            f == (|r: HistoryRecord| markdown_row(r)),
            i <= hist.history@.len(),
            out@ == p + concat_map(hist.history@.subrange(0, i as int), f),
        decreases hist.history@.len() - i,
    {
        push_markdown_row(&mut out, &hist.history[i]);
        proof {
            lemma_concat_map_step(hist.history@, f, i as int);
            assert(out@ =~= p + concat_map(hist.history@.subrange(0, i + 1), f));
        }
        i = i + 1;
    }
    proof {
        assert(hist.history@.subrange(0, i as int) =~= hist.history@);
        assert(out@ =~= markdown_report(*hist));
    }
    string_from_chars(&out)
}

// ---------------------------------------------------------------------------
// The doctor's exchange with the daemon
// ---------------------------------------------------------------------------

/// What the doctor asks the daemon for.
#[derive(Debug, PartialEq, Eq)]
pub enum DoctorQuery {
    /// The `limit` most recent failures.
    History { limit: usize },
    /// Past failures matching `query`.
    Search { query: String, limit: usize },
    /// Aggregate statistics.
    Stats,
}

/// How many records an export fetches.
pub const EXPORT_LIMIT: usize = 100;

impl DoctorCommand {
    /// The daemon request this command needs.
    pub fn daemon_query(&self) -> (q: DoctorQuery)
        ensures
            q == match self {
                DoctorCommand::Default { limit } => DoctorQuery::History { limit: *limit },
                DoctorCommand::Search { query, limit } => DoctorQuery::Search {
                    query: *query,
                    limit: *limit,
                },
                DoctorCommand::Stats => DoctorQuery::Stats,
                DoctorCommand::Export { .. } => DoctorQuery::History { limit: EXPORT_LIMIT },
            },
    {
        match self {
            DoctorCommand::Default { limit } => DoctorQuery::History { limit: *limit },
            DoctorCommand::Search { query, limit } => DoctorQuery::Search {
                query: query.clone(),
                limit: *limit,
            },
            DoctorCommand::Stats => DoctorQuery::Stats,
            DoctorCommand::Export { .. } => DoctorQuery::History { limit: EXPORT_LIMIT },
        }
    }
}

/// What came of the doctor's request (and, for an export, of writing the
/// report file).
#[derive(Debug)]
pub enum DoctorOutcome {
    /// The daemon sent history.
    History(HistoryResponse),
    /// The daemon sent statistics.
    Stats(DoctorStatsResponse),
    /// The report file was written.
    Exported,
    /// Writing the report file failed with this message.
    ExportFailed(String),
    /// The daemon could not be reached.
    Unreachable,
}

/// The report file's contents for `format`: the Markdown report, or `None`
/// for `json`, which is written as the serialized history instead.
pub open spec fn export_text(format: Seq<char>, h: HistoryResponse) -> Option<Seq<char>> {
    if format == "json"@ {
        None
    } else {
        Some(markdown_report(h))
    }
}

/// The report file's contents for `format` (Markdown unless it is `json`).
pub fn export_contents(format: &str, hist: &HistoryResponse) -> (r: Option<String>)
    ensures
        r matches Some(s) ==> export_text(format@, *hist) == Some(s@),
        r is None ==> export_text(format@, *hist) is None,
{
    let f = chars_of(format);
    if chars_eq_str(&f, "json") {
        None
    } else {
        Some(export_markdown(hist))
    }
}

/// What the doctor prints for a command and the outcome of its request.
pub open spec fn doctor_output(cmd: DoctorModel, outcome: DoctorOutcome) -> Seq<char> {
    match cmd {
        DoctorModel::Default { .. } => "\r\n\x1b[35;1m=== Ghost Doctor: Recent Interceptions ===\x1b[0m\r\n"@
            + match outcome {
            DoctorOutcome::History(h) => history_table(h),
            _ => "\x1b[31mFailed to connect to ghost_daemon at http://127.0.0.1:8000\x1b[0m\r\n"@,
        },
        DoctorModel::Search { query, .. } => "\r\n\x1b[35;1m=== Ghost Doctor: Search Results for '"@
            + query + "' ===\x1b[0m\r\n"@ + match outcome {
            DoctorOutcome::History(h) => if h.history@.len() == 0 {
                "No historical failures matched '"@ + query + "'.\r\n"@
            } else {
                history_table(h)
            },
            _ => "\x1b[31mFailed to reach ghost_daemon search endpoint.\x1b[0m\r\n"@,
        },
        DoctorModel::Stats => "\r\n\x1b[35;1m=== Ghost Doctor: Diagnostic Analytics ===\x1b[0m\r\n"@
            + match outcome {
            DoctorOutcome::Stats(st) => stats_summary(st),
            _ => "\x1b[31mFailed to reach ghost_daemon stats endpoint.\x1b[0m\r\n"@,
        },
        DoctorModel::Export { out_path, .. } => "\r\n\x1b[35;1m=== Ghost Doctor: Export Report ===\x1b[0m\r\n"@
            + match outcome {
            DoctorOutcome::Exported => "\x1b[32mSuccessfully exported report to '"@ + out_path
                + "'\x1b[0m\r\n"@,
            DoctorOutcome::ExportFailed(e) => "\x1b[31mFailed to write export file: "@ + e@
                + "\x1b[0m\r\n"@,
            _ => "\x1b[31mFailed to retrieve history for report generation.\x1b[0m\r\n"@,
        },
    }
}

/// The doctor's output for a command and the outcome of its request.
pub fn render_doctor_output(cmd: &DoctorCommand, outcome: &DoctorOutcome) -> (s: String)
    requires
        match outcome {
            DoctorOutcome::Stats(st) => st.engines_distinct(),
            _ => true,
        },
    ensures
        s@ == doctor_output(cmd@, *outcome),
{
    let mut out: Vec<char> = Vec::new();
    match cmd {
        DoctorCommand::Default { .. } => {
            push_str(&mut out, "\r\n\x1b[35;1m=== Ghost Doctor: Recent Interceptions ===\x1b[0m\r\n");
            match outcome {
                DoctorOutcome::History(h) => push_history_table(&mut out, h),
                _ => push_str(
                    &mut out,
                    "\x1b[31mFailed to connect to ghost_daemon at http://127.0.0.1:8000\x1b[0m\r\n",
                ),
            }
        },
        DoctorCommand::Search { query, .. } => {
            push_str(&mut out, "\r\n\x1b[35;1m=== Ghost Doctor: Search Results for '");
            push_str(&mut out, query.as_str());
            push_str(&mut out, "' ===\x1b[0m\r\n");
            match outcome {
                DoctorOutcome::History(h) => {
                    if h.history.len() == 0 {
                        push_str(&mut out, "No historical failures matched '");
                        push_str(&mut out, query.as_str());
                        push_str(&mut out, "'.\r\n");
                    } else {
                        push_history_table(&mut out, h);
                    }
                },
                _ => push_str(
                    &mut out,
                    "\x1b[31mFailed to reach ghost_daemon search endpoint.\x1b[0m\r\n",
                ),
            }
        },
        DoctorCommand::Stats => {
            push_str(&mut out, "\r\n\x1b[35;1m=== Ghost Doctor: Diagnostic Analytics ===\x1b[0m\r\n");
            match outcome {
                DoctorOutcome::Stats(st) => push_stats_summary(&mut out, st),
                _ => push_str(
                    &mut out,
                    "\x1b[31mFailed to reach ghost_daemon stats endpoint.\x1b[0m\r\n",
                ),
            }
        },
        DoctorCommand::Export { out_path, .. } => {
            push_str(&mut out, "\r\n\x1b[35;1m=== Ghost Doctor: Export Report ===\x1b[0m\r\n");
            match outcome {
                DoctorOutcome::Exported => {
                    push_str(&mut out, "\x1b[32mSuccessfully exported report to '");
                    push_str(&mut out, out_path.as_str());
                    push_str(&mut out, "'\x1b[0m\r\n");
                },
                DoctorOutcome::ExportFailed(e) => {
                    push_str(&mut out, "\x1b[31mFailed to write export file: ");
                    push_str(&mut out, e.as_str());
                    push_str(&mut out, "\x1b[0m\r\n");
                },
                _ => push_str(
                    &mut out,
                    "\x1b[31mFailed to retrieve history for report generation.\x1b[0m\r\n",
                ),
            }
        },
    }
    proof {
        assert(out@ =~= doctor_output(cmd@, *outcome));
    }
    string_from_chars(&out)
}

} // verus!
