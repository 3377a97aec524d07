//! A rolling buffer of the most recent lines of terminal output, with ANSI
//! escape sequences stripped, and the recovery of the last typed command.

use vstd::prelude::*;

use crate::text::{
    chars_of, contains_seq, contains_str, in_trim_set, is_white_space, is_whitespace, lemma_trim_idempotent, slice_chars,
    starts_with_seq, starts_with_str, string_from_chars, trim, trim_chars, trim_end_by,
    trim_start_by, TrimSet,
};

verus! {

broadcast use vstd::seq::group_seq_axioms, vstd::std_specs::vecdeque::group_vec_dequeue_axioms;

/// Where the escape-sequence filter stands.
#[derive(Debug, PartialEq, Eq, Clone, Copy)]
pub enum ParserState {
    /// Ordinary text.
    Normal,
    /// Just after ESC.
    Escape,
    /// Inside a control sequence (`ESC [`), until a final byte `@`..`~`.
    Csi,
    /// Inside an operating-system command (`ESC ]`), until BEL or ESC.
    Osc,
}

/// Abstract state of a rolling buffer.
pub struct RollingModel {
    /// Completed, trimmed, non-empty lines, oldest first.
    pub lines: Seq<Seq<char>>,
    /// The line being received.
    pub current: Seq<char>,
    pub state: ParserState,
    pub max_lines: nat,
}

/// Appends a completed line, first dropping the oldest one when the buffer
/// is full.
pub open spec fn push_line(lines: Seq<Seq<char>>, line: Seq<char>, max_lines: nat) -> Seq<
    Seq<char>,
> {
    if lines.len() >= max_lines && lines.len() > 0 {
        lines.drop_first().push(line)
    } else {
        lines.push(line)
    }
}

/// The effect of one output byte.
pub open spec fn byte_step(m: RollingModel, b: u8) -> RollingModel {
    match m.state {
        ParserState::Normal => {
            if b == 0x1b {
                RollingModel { state: ParserState::Escape, ..m }
            } else if b == 0x0a || b == 0x0d {
                let t = trim(m.current);
                RollingModel {
                    lines: if t.len() > 0 {
                        push_line(m.lines, t, m.max_lines)
                    } else {
                        m.lines
                    },
                    current: Seq::empty(),
                    ..m
                }
            } else if 32 <= b <= 126 {
                RollingModel { current: m.current.push(b as char), ..m }
            } else {
                m
            }
        },
        ParserState::Escape => RollingModel {
            state: if b == 0x5b {
                ParserState::Csi
            } else if b == 0x5d {
                ParserState::Osc
            } else {
                ParserState::Normal
            },
            ..m
        },
        ParserState::Csi => {
            if 0x40 <= b <= 0x7e {
                RollingModel { state: ParserState::Normal, ..m }
            } else {
                m
            }
        },
        ParserState::Osc => {
            if b == 0x07 || b == 0x1b {
                RollingModel { state: ParserState::Normal, ..m }
            } else {
                m
            }
        },
    }
}

/// The effect of a run of output bytes, one after the other.
pub open spec fn push_all(m: RollingModel, bytes: Seq<u8>) -> RollingModel
    decreases bytes.len(),
{
    if bytes.len() == 0 {
        m
    } else {
        byte_step(push_all(m, bytes.drop_last()), bytes.last())
    }
}

/// Lines joined with `\n` between them.
pub open spec fn join_lines(lines: Seq<Seq<char>>) -> Seq<char>
    decreases lines.len(),
{
    if lines.len() == 0 {
        Seq::empty()
    } else if lines.len() == 1 {
        lines[0]
    } else {
        join_lines(lines.drop_last()) + seq!['\n'] + lines.last()
    }
}

/// Lines that are banners, headers or shell errors rather than typed commands.
pub open spec fn skipped_line(t: Seq<char>) -> bool {
    ||| t.len() == 0
    ||| starts_with_seq(t, "["@)
    ||| starts_with_seq(t, "bash:"@)
    ||| contains_seq(t, "Ghost Intercepted"@)
    ||| contains_seq(t, "Ghost Doctor"@)
}

/// The trimmed text after position `p` of `t`, when it is not empty.
pub open spec fn after_prompt(t: Seq<char>, p: int) -> Option<Seq<char>> {
    let c = trim(t.subrange(p + 1, t.len() as int));
    if c.len() > 0 {
        Some(c)
    } else {
        None
    }
}

/// Law: the recovered command is `unknown_command` when no stored line
/// holds a prompt with a command after it. Otherwise it comes from the most
/// recent line that does: it is the non-empty text after a `$` or a `>` of
/// that line, trimmed, so trimming it again changes nothing.
pub proof fn law_last_command_source(lines: Seq<Seq<char>>)
    ensures
        (forall|i: int| 0 <= i < lines.len() ==> command_in_line(#[trigger] lines[i]) is None)
            ==> last_command(lines) == "unknown_command"@,
        (exists|i: int| 0 <= i < lines.len() && command_in_line(#[trigger] lines[i]) is Some)
            ==> exists|i: int, p: int|
            {
                &&& 0 <= i < lines.len()
                &&& forall|j: int| i < j < lines.len() ==> command_in_line(#[trigger] lines[j]) is None
                &&& !skipped_line(trim(lines[i]))
                &&& 0 <= p < trim(lines[i]).len()
                &&& (trim(lines[i])[p] == '$' || trim(lines[i])[p] == '>')
                &&& last_command(lines) == trim(
                    trim(lines[i]).subrange(p + 1, trim(lines[i]).len() as int),
                )
                &&& last_command(lines).len() > 0
                &&& trim(last_command(lines)) == last_command(lines)
            },
    decreases lines.len(),
{
    if lines.len() > 0 {
        let rest = lines.drop_last();
        let n = lines.len() - 1;
        assert(lines.last() == lines[n]);
        let t = trim(lines[n]);
        lemma_prompt_pos(t);
        match command_in_line(lines[n]) {
            Some(c) => {
                let p = prompt_pos(t)->0;
                lemma_trim_idempotent(t.subrange(p + 1, t.len() as int), TrimSet::Whitespace);
                assert(forall|j: int| n < j < lines.len() ==> command_in_line(#[trigger] lines[j]) is None);
            },
            None => {
                law_last_command_source(rest);
                assert forall|i: int| 0 <= i < rest.len() implies #[trigger] rest[i] == lines[i] by {}
                if exists|i: int| 0 <= i < lines.len() && command_in_line(#[trigger] lines[i]) is Some {
                    let i0 = choose|i: int| 0 <= i < lines.len() && command_in_line(#[trigger] lines[i]) is Some;
                    assert(i0 < n);
                    assert(rest[i0] == lines[i0]);
                    assert(exists|i: int| 0 <= i < rest.len() && command_in_line(#[trigger] rest[i]) is Some);
                    let (i1, p1) = choose|i: int, p: int|
                    {
                        &&& 0 <= i < rest.len()
                        &&& forall|j: int| i < j < rest.len() ==> command_in_line(#[trigger] rest[j]) is None
                        &&& !skipped_line(trim(rest[i]))
                        &&& 0 <= p < trim(rest[i]).len()
                        &&& (trim(rest[i])[p] == '$' || trim(rest[i])[p] == '>')
                        &&& last_command(rest) == trim(trim(rest[i]).subrange(p + 1, trim(rest[i]).len() as int))
                        &&& last_command(rest).len() > 0
                        &&& trim(last_command(rest)) == last_command(rest)
                    };
                    assert(rest[i1] == lines[i1]);
                    assert forall|j: int| i1 < j < lines.len() implies command_in_line(#[trigger] lines[j]) is None by {
                        if j < n {
                            assert(rest[j] == lines[j]);
                        }
                    }
                } else {
                    assert forall|i: int| 0 <= i < rest.len() implies command_in_line(#[trigger] rest[i]) is None by {
                        assert(rest[i] == lines[i]);
                    }
                }
            },
        }
    }
}

/// Position `i` of `t` holds the prompt symbol `c`: a `c` that ends the
/// line or is followed by whitespace (unlike a `$` inside `$HOME`).
pub open spec fn prompt_at(t: Seq<char>, c: char, i: int) -> bool {
    &&& 0 <= i < t.len()
    &&& t[i] == c
    &&& (i + 1 == t.len() || is_white_space(t[i + 1]))
}

/// The first prompt symbol `c` at or after position `i` of `t`.
pub open spec fn find_prompt(t: Seq<char>, c: char, i: int) -> Option<int>
    decreases t.len() - i,
{
    if i < 0 || i >= t.len() {
        None
    } else if prompt_at(t, c, i) {
        Some(i)
    } else {
        find_prompt(t, c, i + 1)
    }
}

/// The last position of `c` in `t`.
pub open spec fn rfind_char(t: Seq<char>, c: char) -> Option<int>
    decreases t.len(),
{
    if t.len() == 0 {
        None
    } else if t.last() == c {
        Some(t.len() - 1)
    } else {
        rfind_char(t.drop_last(), c)
    }
}

/// Where the command starts on a trimmed line: at its first `$` prompt; on
/// a line without one, at its first `>` prompt; on a line with neither
/// (`x$ls`, or cmd.exe's `C:\Users\dev>git status`), at its last `$`, or
/// else at its last `>`.
pub open spec fn prompt_pos(t: Seq<char>) -> Option<int> {
    match find_prompt(t, '$', 0) {
        Some(p) => Some(p),
        None => match find_prompt(t, '>', 0) {
            Some(p) => Some(p),
            None => match rfind_char(t, '$') {
                Some(p) => Some(p),
                None => rfind_char(t, '>'),
            },
        },
    }
}

/// The command typed on a line: the text after the prompt symbol that
/// `prompt_pos` picks.
pub open spec fn command_in_line(line: Seq<char>) -> Option<Seq<char>> {
    let t = trim(line);
    if skipped_line(t) {
        None
    } else {
        match prompt_pos(t) {
            Some(p) => after_prompt(t, p),
            None => None,
        }
    }
}

/// The command on the most recent line that holds one.
pub open spec fn last_command(lines: Seq<Seq<char>>) -> Seq<char>
    decreases lines.len(),
{
    if lines.len() == 0 {
        "unknown_command"@
    } else {
        match command_in_line(lines.last()) {
            Some(c) => c,
            None => last_command(lines.drop_last()),
        }
    }
}

/// Most lines a buffer made with `max_lines` holds at once (a buffer made
/// with 0 still keeps the latest line).
pub open spec fn line_cap(max_lines: nat) -> nat {
    if max_lines == 0 {
        1
    } else {
        max_lines
    }
}

/// A printable ASCII character (space to `~`).
pub open spec fn printable(c: char) -> bool {
    ' ' <= c && c <= '~'
}

pub open spec fn all_printable(s: Seq<char>) -> bool {
    forall|i: int| 0 <= i < s.len() ==> printable(#[trigger] s[i])
}

/// What holds of every buffer: at most `line_cap(max_lines)` lines, each
/// non-empty and made of printable characters only, and a current line of
/// printable characters.
pub open spec fn well_kept(m: RollingModel) -> bool {
    &&& m.lines.len() <= line_cap(m.max_lines)
    &&& forall|i: int|
        0 <= i < m.lines.len() ==> (#[trigger] m.lines[i]).len() > 0 && all_printable(m.lines[i])
    &&& all_printable(m.current)
}

proof fn lemma_trim_printable(s: Seq<char>)
    requires
        all_printable(s),
    ensures
        all_printable(trim(s)),
{
    lemma_trim_start_printable(s);
    lemma_trim_end_printable(trim_start_by(s, TrimSet::Whitespace));
}

proof fn lemma_trim_start_printable(s: Seq<char>)
    requires
        all_printable(s),
    ensures
        all_printable(trim_start_by(s, TrimSet::Whitespace)),
    decreases s.len(),
{
    if s.len() > 0 && in_trim_set(TrimSet::Whitespace, s[0]) {
        assert(all_printable(s.drop_first())) by {
            assert forall|i: int| 0 <= i < s.len() - 1 implies printable(
                #[trigger] s.drop_first()[i],
            ) by {
                assert(s.drop_first()[i] == s[i + 1]);
            }
        }
        lemma_trim_start_printable(s.drop_first());
    }
}

proof fn lemma_trim_end_printable(s: Seq<char>)
    requires
        all_printable(s),
    ensures
        all_printable(trim_end_by(s, TrimSet::Whitespace)),
    decreases s.len(),
{
    if s.len() > 0 && in_trim_set(TrimSet::Whitespace, s.last()) {
        assert(all_printable(s.drop_last())) by {
            assert forall|i: int| 0 <= i < s.len() - 1 implies printable(
                #[trigger] s.drop_last()[i],
            ) by {
                assert(s.drop_last()[i] == s[i]);
            }
        }
        lemma_trim_end_printable(s.drop_last());
    }
}

proof fn lemma_byte_step_well_kept(m: RollingModel, b: u8)
    requires
        well_kept(m),
    ensures
        well_kept(byte_step(m, b)),
        byte_step(m, b).max_lines == m.max_lines,
{
    let r = byte_step(m, b);
    if m.state == ParserState::Normal {
        if b == 0x0a || b == 0x0d {
            let t = trim(m.current);
            lemma_trim_printable(m.current);
            if t.len() > 0 {
                let ls = push_line(m.lines, t, m.max_lines);
                assert forall|i: int| 0 <= i < ls.len() implies (#[trigger] ls[i]).len() > 0
                    && all_printable(ls[i]) by {
                    if m.lines.len() >= m.max_lines && m.lines.len() > 0 {
                        if i < ls.len() - 1 {
                            assert(ls[i] == m.lines[i + 1]);
                        }
                    } else {
                        if i < ls.len() - 1 {
                            assert(ls[i] == m.lines[i]);
                        }
                    }
                }
            }
        } else if b != 0x1b && 32 <= b <= 126 {
            let c = m.current.push(b as char);
            assert forall|i: int| 0 <= i < c.len() implies printable(#[trigger] c[i]) by {
                if i < m.current.len() {
                    assert(c[i] == m.current[i]);
                }
            }
        }
    }
}

/// Law: every buffer is well kept. A new buffer is, and taking in output
/// keeps it so: at most `line_cap(max_lines)` lines, each non-empty and free
/// of escape sequences and control characters.
pub proof fn law_push_all_well_kept(m: RollingModel, bytes: Seq<u8>)
    requires
        well_kept(m),
    ensures
        well_kept(push_all(m, bytes)),
        push_all(m, bytes).max_lines == m.max_lines,
    decreases bytes.len(),
{
    if bytes.len() > 0 {
        law_push_all_well_kept(m, bytes.drop_last());
        lemma_byte_step_well_kept(push_all(m, bytes.drop_last()), bytes.last());
    }
}

/// How many times `c` occurs in `s`.
pub open spec fn count_char(s: Seq<char>, c: char) -> nat
    decreases s.len(),
{
    if s.len() == 0 {
        0
    } else {
        count_char(s.drop_last(), c) + if s.last() == c {
            1nat
        } else {
            0nat
        }
    }
}

proof fn lemma_count_char_concat(a: Seq<char>, b: Seq<char>, c: char)
    ensures
        count_char(a + b, c) == count_char(a, c) + count_char(b, c),
    decreases b.len(),
{
    if b.len() == 0 {
        assert(a + b =~= a);
    } else {
        lemma_count_char_concat(a, b.drop_last(), c);
        assert((a + b).drop_last() =~= a + b.drop_last());
        assert((a + b).last() == b.last());
    }
}

proof fn lemma_count_char_printable(s: Seq<char>)
    requires
        all_printable(s),
    ensures
        count_char(s, '\n') == 0,
    decreases s.len(),
{
    if s.len() > 0 {
        assert(printable(s[s.len() - 1]));
        assert(all_printable(s.drop_last())) by {
            assert forall|i: int| 0 <= i < s.len() - 1 implies printable(
                #[trigger] s.drop_last()[i],
            ) by {
                assert(s.drop_last()[i] == s[i]);
            }
        }
        lemma_count_char_printable(s.drop_last());
    }
}

/// Law: the context text has one line per stored line. It is empty exactly
/// when the buffer holds no line; otherwise it holds one `\n` fewer than the
/// buffer holds lines, so splitting it at `\n` gives back at most
/// `line_cap(max_lines)` lines.
pub proof fn law_context_line_count(m: RollingModel)
    requires
        well_kept(m),
    ensures
        (join_lines(m.lines).len() == 0) == (m.lines.len() == 0),
        m.lines.len() > 0 ==> count_char(join_lines(m.lines), '\n') + 1 == m.lines.len(),
        join_lines(m.lines).len() == 0 || count_char(join_lines(m.lines), '\n') + 1 <= line_cap(
            m.max_lines,
        ),
    decreases m.lines.len(),
{
    let ls = m.lines;
    if ls.len() > 0 {
        let n = ls.len() - 1;
        assert(ls.last() == ls[n]);
        lemma_count_char_printable(ls[n]);
        if ls.len() > 1 {
            let rest = RollingModel { lines: ls.drop_last(), ..m };
            assert forall|i: int| 0 <= i < rest.lines.len() implies (
            #[trigger] rest.lines[i]).len() > 0 && all_printable(rest.lines[i]) by {
                assert(rest.lines[i] == ls[i]);
            }
            law_context_line_count(rest);
            let j = join_lines(ls.drop_last());
            lemma_count_char_concat(j, seq!['\n'], '\n');
            lemma_count_char_concat(j + seq!['\n'], ls.last(), '\n');
            assert(count_char(seq!['\n'], '\n') == 1) by {
                let nl = seq!['\n'];
                assert(nl.drop_last() =~= Seq::<char>::empty());
                assert(count_char(Seq::<char>::empty(), '\n') == 0);
                assert(nl.last() == '\n');
            }
        }
    }
}

/// The last `n` lines of `ls` (all of them when there are fewer).
pub open spec fn keep_last(ls: Seq<Seq<char>>, n: nat) -> Seq<Seq<char>> {
    if ls.len() <= n {
        ls
    } else {
        ls.subrange(ls.len() - n, ls.len() as int)
    }
}

proof fn lemma_push_line_keep_last(ls: Seq<Seq<char>>, t: Seq<char>, max_lines: nat)
    ensures
        push_line(keep_last(ls, line_cap(max_lines)), t, max_lines) == keep_last(
            ls.push(t),
            line_cap(max_lines),
        ),
{
    let cap = line_cap(max_lines);
    let k = keep_last(ls, cap);
    let r = push_line(k, t, max_lines);
    let e = keep_last(ls.push(t), cap);
    if ls.len() < cap {
        assert(r =~= e);
    } else {
        assert(k.len() == cap);
        assert(r =~= e);
    }
}

/// Law: the buffer holds exactly the most recent lines. Taking in bytes
/// leaves it holding the last `line_cap(max_lines)` of the lines that a
/// buffer that never drops a line would hold, with the same line in
/// progress and the same escape-sequence state. Started from new buffers
/// (no lines on either side), `get_context` is thus the most recent lines
/// of all the output, each filtered, trimmed and non-empty.
pub proof fn law_keeps_most_recent_lines(m: RollingModel, u: RollingModel, bytes: Seq<u8>)
    requires
        m.current == u.current,
        m.state == u.state,
        m.lines == keep_last(u.lines, line_cap(m.max_lines)),
        u.max_lines >= u.lines.len() + bytes.len(),
    ensures
        push_all(m, bytes).current == push_all(u, bytes).current,
        push_all(m, bytes).state == push_all(u, bytes).state,
        push_all(m, bytes).max_lines == m.max_lines,
        push_all(u, bytes).max_lines == u.max_lines,
        push_all(m, bytes).lines == keep_last(push_all(u, bytes).lines, line_cap(m.max_lines)),
        push_all(u, bytes).lines.len() <= u.lines.len() + bytes.len(),
    decreases bytes.len(),
{
    if bytes.len() > 0 {
        let init = bytes.drop_last();
        law_keeps_most_recent_lines(m, u, init);
        let a = push_all(m, init);
        let b = push_all(u, init);
        let x = bytes.last();
        if a.state == ParserState::Normal && (x == 0x0a || x == 0x0d) {
            let t = trim(a.current);
            if t.len() > 0 {
                lemma_push_line_keep_last(b.lines, t, m.max_lines);
                assert(push_line(b.lines, t, b.max_lines) == b.lines.push(t));
            }
        }
    }
}

/// The state of a new buffer made with `max_lines`.
pub open spec fn fresh_model(max_lines: nat) -> RollingModel {
    RollingModel {
        lines: Seq::empty(),
        current: Seq::empty(),
        state: ParserState::Normal,
        max_lines,
    }
}

/// Every line that the output `bytes` completes, none dropped: escape
/// sequences and control characters removed, split at `\n` and `\r`,
/// trimmed, empty lines left out. (A buffer with room for one line per
/// byte never drops one.)
pub open spec fn completed_lines(bytes: Seq<u8>) -> Seq<Seq<char>> {
    push_all(fresh_model(bytes.len()), bytes).lines
}

/// Law: a new buffer that has taken in the output `bytes`, in one piece or
/// many, holds the last `line_cap(max_lines)` lines of all the lines that
/// output completes (all of them when there are fewer), so `get_context`
/// is those lines joined with `\n`.
pub proof fn law_new_buffer_keeps_latest_lines(max_lines: nat, bytes: Seq<u8>)
    ensures
        push_all(fresh_model(max_lines), bytes).lines == keep_last(
            completed_lines(bytes),
            line_cap(max_lines),
        ),
{
    let m = fresh_model(max_lines);
    let u = fresh_model(bytes.len());
    assert(keep_last(u.lines, line_cap(max_lines)) =~= m.lines);
    law_keeps_most_recent_lines(m, u, bytes);
}

/// `\n` or `\r`.
pub open spec fn is_line_end(b: u8) -> bool {
    b == 0x0a || b == 0x0d
}

/// The pieces of `bytes` that a `\n` or `\r` ends, in order, and the
/// unended rest.
pub open spec fn split_at_line_ends(bytes: Seq<u8>) -> (Seq<Seq<u8>>, Seq<u8>)
    decreases bytes.len(),
{
    if bytes.len() == 0 {
        (Seq::empty(), Seq::empty())
    } else {
        let (done, rest) = split_at_line_ends(bytes.drop_last());
        if is_line_end(bytes.last()) {
            (done.push(rest), Seq::empty())
        } else {
            (done, rest.push(bytes.last()))
        }
    }
}

/// The printable ASCII bytes (space to `~`) of `s`, as characters; other
/// bytes left out.
pub open spec fn printable_text(s: Seq<u8>) -> Seq<char>
    decreases s.len(),
{
    if s.len() == 0 {
        Seq::empty()
    } else if 32 <= s.last() <= 126 {
        printable_text(s.drop_last()).push(s.last() as char)
    } else {
        printable_text(s.drop_last())
    }
}

/// The printable text of each piece, trimmed, the empty ones left out.
pub open spec fn shown_lines(pieces: Seq<Seq<u8>>) -> Seq<Seq<char>>
    decreases pieces.len(),
{
    if pieces.len() == 0 {
        Seq::empty()
    } else {
        let t = trim(printable_text(pieces.last()));
        if t.len() > 0 {
            shown_lines(pieces.drop_last()).push(t)
        } else {
            shown_lines(pieces.drop_last())
        }
    }
}

proof fn lemma_plain_output(max_lines: nat, bytes: Seq<u8>)
    requires
        max_lines >= bytes.len(),
        forall|i: int| 0 <= i < bytes.len() ==> bytes[i] != 0x1bu8,
    ensures
        push_all(fresh_model(max_lines), bytes).state == ParserState::Normal,
        push_all(fresh_model(max_lines), bytes).max_lines == max_lines,
        push_all(fresh_model(max_lines), bytes).current == printable_text(
            split_at_line_ends(bytes).1,
        ),
        push_all(fresh_model(max_lines), bytes).lines == shown_lines(split_at_line_ends(bytes).0),
        push_all(fresh_model(max_lines), bytes).lines.len() <= bytes.len(),
    decreases bytes.len(),
{
    if bytes.len() > 0 {
        let init = bytes.drop_last();
        let x = bytes.last();
        assert forall|i: int| 0 <= i < init.len() implies init[i] != 0x1bu8 by {
            assert(init[i] == bytes[i]);
        }
        lemma_plain_output(max_lines, init);
        let (done, rest) = split_at_line_ends(init);
        assert(x == bytes[bytes.len() - 1]);
        if is_line_end(x) {
            let d2 = done.push(rest);
            assert(d2.drop_last() =~= done);
        } else if 32 <= x <= 126 {
            assert(rest.push(x).drop_last() =~= rest);
        } else {
            assert(rest.push(x).drop_last() =~= rest);
        }
    }
}

/// Law: a new buffer that has taken in output without escape sequences
/// holds, of the pieces that a `\n` or `\r` ends, the printable text of
/// each, trimmed, every non-empty one kept: the last `line_cap(max_lines)`
/// of them (all when there are fewer).
pub proof fn law_plain_output_lines(max_lines: nat, bytes: Seq<u8>)
    requires
        forall|i: int| 0 <= i < bytes.len() ==> bytes[i] != 0x1bu8,
    ensures
        push_all(fresh_model(max_lines), bytes).lines == keep_last(
            shown_lines(split_at_line_ends(bytes).0),
            line_cap(max_lines),
        ),
{
    law_new_buffer_keeps_latest_lines(max_lines, bytes);
    lemma_plain_output(bytes.len(), bytes);
}

proof fn lemma_inside_escape_unchanged(m: RollingModel, bytes: Seq<u8>)
    requires
        m.state == ParserState::Csi || m.state == ParserState::Osc,
        m.state == ParserState::Csi ==> forall|i: int|
            0 <= i < bytes.len() ==> 0x20 <= #[trigger] bytes[i] <= 0x3f,
        m.state == ParserState::Osc ==> forall|i: int|
            0 <= i < bytes.len() ==> #[trigger] bytes[i] != 0x07u8 && bytes[i] != 0x1bu8,
    ensures
        push_all(m, bytes) == m,
    decreases bytes.len(),
{
    if bytes.len() > 0 {
        assert(bytes.last() == bytes[bytes.len() - 1]);
        lemma_inside_escape_unchanged(m, bytes.drop_last());
    }
}

/// Law: escape sequences leave no trace. In ordinary text, a control
/// sequence (`ESC [`, parameter bytes `0x20`..`0x3f`, then a final byte
/// `@`..`~`, as in `ESC [ 1 ; 3 1 m`) and an operating-system command
/// (`ESC ]`, any bytes but BEL and ESC, then BEL, as in a window title)
/// each leave the buffer exactly as it was.
pub proof fn law_escape_sequences_vanish(
    m: RollingModel,
    params: Seq<u8>,
    last: u8,
    body: Seq<u8>,
)
    requires
        m.state == ParserState::Normal,
        forall|i: int| 0 <= i < params.len() ==> 0x20 <= #[trigger] params[i] <= 0x3f,
        0x40 <= last <= 0x7e,
        forall|i: int| 0 <= i < body.len() ==> #[trigger] body[i] != 0x07u8 && body[i] != 0x1bu8,
    ensures
        push_all(m, seq![0x1bu8, 0x5bu8] + params + seq![last]) == m,
        push_all(m, seq![0x1bu8, 0x5du8] + body + seq![0x07u8]) == m,
{
    let open_csi = seq![0x1bu8, 0x5bu8];
    let open_osc = seq![0x1bu8, 0x5du8];
    reveal_with_fuel(push_all, 3);
    assert(open_csi.drop_last() =~= seq![0x1bu8]);
    assert(seq![0x1bu8].drop_last() =~= Seq::<u8>::empty());
    assert(open_osc.drop_last() =~= seq![0x1bu8]);
    let mc = push_all(m, open_csi);
    let mo = push_all(m, open_osc);
    assert(mc == RollingModel { state: ParserState::Csi, ..m });
    assert(mo == RollingModel { state: ParserState::Osc, ..m });
    lemma_inside_escape_unchanged(mc, params);
    lemma_inside_escape_unchanged(mo, body);
    law_push_all_split(m, open_csi, params);
    law_push_all_split(m, open_csi + params, seq![last]);
    law_push_all_split(m, open_osc, body);
    law_push_all_split(m, open_osc + body, seq![0x07u8]);
    assert(seq![last].drop_last() =~= Seq::<u8>::empty());
    assert(seq![0x07u8].drop_last() =~= Seq::<u8>::empty());
}

/// Law: output may arrive in any number of pieces: taking in `a` and then
/// `b` leaves the buffer as taking in `a + b` at once does.
pub proof fn law_push_all_split(m: RollingModel, a: Seq<u8>, b: Seq<u8>)
    ensures
        push_all(push_all(m, a), b) == push_all(m, a + b),
    decreases b.len(),
{
    if b.len() == 0 {
        assert(a + b =~= a);
    } else {
        law_push_all_split(m, a, b.drop_last());
        assert((a + b).drop_last() =~= a + b.drop_last());
        assert((a + b).last() == b.last());
    }
}

/// The most recent lines of terminal output.
pub struct RollingBuffer {
    lines: std::collections::VecDeque<String>,
    max_lines: usize,
    current_line: Vec<char>,
    state: ParserState,
}

impl View for RollingBuffer {
    type V = RollingModel;

    closed spec fn view(&self) -> RollingModel {
        RollingModel {
            lines: self.lines@.map_values(|s: String| s@),
            current: self.current_line@,
            state: self.state,
            max_lines: self.max_lines as nat,
        }
    }
}

impl RollingBuffer {
    /// Every buffer is well kept.
    #[verifier::type_invariant]
    spec fn buffer_well_kept(self) -> bool {
        well_kept(self@)
    }

    /// An empty buffer that keeps at most `max_lines` lines.
    pub fn new(max_lines: usize) -> (b: Self)
        ensures
            b@ == fresh_model(max_lines as nat),
            well_kept(b@),
    {
        let b = RollingBuffer {
            lines: std::collections::VecDeque::with_capacity(max_lines),
            max_lines,
            current_line: Vec::new(),
            state: ParserState::Normal,
        };
        proof {
            assert(b@.lines =~= Seq::<Seq<char>>::empty());
        }
        b
    }

    /// Takes in a run of output bytes.
    pub fn push_bytes(&mut self, bytes: &[u8])
        ensures
            final(self)@ == push_all(old(self)@, bytes@),
            well_kept(final(self)@),
    {
        let mut i: usize = 0;
        while i < bytes.len()
            invariant
                i <= bytes@.len(),
                self@ == push_all(old(self)@, bytes@.subrange(0, i as int)),
            decreases bytes@.len() - i,
        {
            let ghost pre = self@;
            self.push_byte(bytes[i]);
            proof {
                let t = bytes@.subrange(0, i + 1);
                assert(t.drop_last() =~= bytes@.subrange(0, i as int));
            }
            i = i + 1;
        }
        proof {
            assert(bytes@.subrange(0, bytes@.len() as int) =~= bytes@);
            use_type_invariant(&*self);
        }
    }

    fn push_byte(&mut self, byte: u8)
        ensures
            final(self)@ == byte_step(old(self)@, byte),
    {
        proof {
            use_type_invariant(&*self);
            lemma_byte_step_well_kept(self@, byte);
        }
        match self.state {
            ParserState::Normal => {
                if byte == 0x1b {
                    self.state = ParserState::Escape;
                } else if byte == 0x0a || byte == 0x0d {
                    let trimmed = trim_chars(&self.current_line, TrimSet::Whitespace);
                    if trimmed.len() > 0 {
                        let ghost old_lines = self@.lines;
                        let mut lines = std::collections::VecDeque::new();
                        std::mem::swap(&mut lines, &mut self.lines);
                        if lines.len() >= self.max_lines {
                            let _ = lines.pop_front();
                        }
                        lines.push_back(string_from_chars(&trimmed));
                        proof {
                            let t = trim(old(self)@.current);
                            assert(lines@.map_values(|s: String| s@) =~= push_line(
                                old_lines,
                                t,
                                self.max_lines as nat,
                            ));
                        }
                        self.lines = lines;
                    }
                    self.current_line = Vec::new();
                } else if 32 <= byte && byte <= 126 {
                    let mut current = Vec::new();
                    std::mem::swap(&mut current, &mut self.current_line);
                    current.push(byte as char);
                    proof {
                        assert(current@ == old(self)@.current.push(byte as char));
                    }
                    self.current_line = current;
                }
            },
            ParserState::Escape => {
                if byte == 0x5b {
                    self.state = ParserState::Csi;
                } else if byte == 0x5d {
                    self.state = ParserState::Osc;
                } else {
                    self.state = ParserState::Normal;
                }
            },
            ParserState::Csi => {
                if 0x40 <= byte && byte <= 0x7e {
                    self.state = ParserState::Normal;
                }
            },
            ParserState::Osc => {
                if byte == 0x07 || byte == 0x1b {
                    self.state = ParserState::Normal;
                }
            },
        }
    }

    /// The stored lines joined with `\n`.
    pub fn get_context(&self) -> (s: String)
        ensures
            s@ == join_lines(self@.lines),
            s@.len() == 0 || count_char(s@, '\n') + 1 <= line_cap(self@.max_lines),
    {
        proof {
            use_type_invariant(self);
            law_context_line_count(self@);
        }
        let mut out = String::new();
        let n: usize = self.lines.len();
        let mut i: usize = 0;
        while i < n
            invariant
                n == self@.lines.len(),
                i <= n,
                out@ == join_lines(self@.lines.subrange(0, i as int)),
            decreases n - i,
        {
            let ghost ls = self@.lines.subrange(0, i + 1);
            if i > 0 {
                out.append("\n");
                proof {
                    reveal_strlit("\n");
                }
            }
            out.append(self.lines[i].as_str());
            proof {
                assert(ls.drop_last() =~= self@.lines.subrange(0, i as int));
                if i == 0 {
                    assert(out@ =~= ls[0]);
                }
            }
            i = i + 1;
        }
        proof {
            assert(self@.lines.subrange(0, n as int) =~= self@.lines);
        }
        out
    }

    /// The command typed on the most recent prompt line, or `unknown_command`.
    pub fn extract_last_command(&self) -> (s: String)
        ensures
            s@ == last_command(self@.lines),
    {
        let mut k: usize = self.lines.len();
        proof {
            assert(self@.lines.subrange(0, k as int) =~= self@.lines);
        }
        while k > 0
            invariant
                k <= self@.lines.len(),
                last_command(self@.lines) == last_command(self@.lines.subrange(0, k as int)),
            decreases k,
        {
            let ghost pre = self@.lines.subrange(0, k as int);
            let line = chars_of(self.lines[k - 1].as_str());
            match command_of(&line) {
                Some(cmd) => {
                    return string_from_chars(&cmd);
                },
                None => {},
            }
            proof {
                assert(pre.drop_last() =~= self@.lines.subrange(0, k - 1));
            }
            k = k - 1;
        }
        String::from_str("unknown_command")
    }
}

/// The trimmed text after position `p` of `t`, when it is not empty.
fn text_after(t: &Vec<char>, p: usize) -> (r: Option<Vec<char>>)
    requires
        p < t.len(),
    ensures
        r matches Some(c) ==> after_prompt(t@, p as int) == Some(c@),
        r is None ==> after_prompt(t@, p as int) is None,
{
    let rest = slice_chars(t, p + 1, t.len());
    let c = trim_chars(&rest, TrimSet::Whitespace);
    if c.len() > 0 {
        Some(c)
    } else {
        None
    }
}

/// The command typed on one line.
fn command_of(line: &Vec<char>) -> (r: Option<Vec<char>>)
    ensures
        r matches Some(c) ==> command_in_line(line@) == Some(c@),
        r is None ==> command_in_line(line@) is None,
{
    let t = trim_chars(line, TrimSet::Whitespace);
    if t.len() == 0 || starts_with_str(&t, "[") || starts_with_str(&t, "bash:") || contains_str(
        &t,
        "Ghost Intercepted",
    ) || contains_str(&t, "Ghost Doctor") {
        return None;
    }
    match prompt_pos_exec(&t) {
        Some(p) => text_after(&t, p),
        None => None,
    }
}

/// A found prompt lies inside the line and holds the symbol.
pub proof fn lemma_find_prompt(t: Seq<char>, c: char, i: int)
    requires
        0 <= i,
    ensures
        find_prompt(t, c, i) matches Some(p) ==> i <= p && prompt_at(t, c, p),
        find_prompt(t, c, i) matches Some(p) ==> forall|k: int| i <= k < p ==> !prompt_at(t, c, k),
        find_prompt(t, c, i) is None ==> forall|k: int| i <= k ==> !prompt_at(t, c, k),
    decreases t.len() - i,
{
    if 0 <= i < t.len() && !prompt_at(t, c, i) {
        lemma_find_prompt(t, c, i + 1);
    }
}

/// The last position of `c` holds `c`, and no later one does.
pub proof fn lemma_rfind_char(t: Seq<char>, c: char)
    ensures
        rfind_char(t, c) matches Some(p) ==> 0 <= p < t.len() && t[p] == c && forall|k: int|
            p < k < t.len() ==> t[k] != c,
        rfind_char(t, c) is None ==> forall|k: int| 0 <= k < t.len() ==> t[k] != c,
    decreases t.len(),
{
    if t.len() > 0 && t.last() != c {
        lemma_rfind_char(t.drop_last(), c);
        assert forall|k: int| 0 <= k < t.len() - 1 implies t[k] == t.drop_last()[k] by {}
    }
}

/// The picked position lies inside the line and holds `$` or `>`.
pub proof fn lemma_prompt_pos(t: Seq<char>)
    ensures
        prompt_pos(t) matches Some(p) ==> 0 <= p < t.len() && (t[p] == '$' || t[p] == '>'),
{
    lemma_find_prompt(t, '$', 0);
    lemma_find_prompt(t, '>', 0);
    lemma_rfind_char(t, '$');
    lemma_rfind_char(t, '>');
}

/// The last position of `c` in `t`.
fn rfind_exec(t: &Vec<char>, c: char) -> (r: Option<usize>)
    ensures
        r matches Some(p) ==> rfind_char(t@, c) == Some(p as int) && p < t@.len(),
        r is None ==> rfind_char(t@, c) is None,
{
    let mut k: usize = t.len();
    proof {
        assert(t@.subrange(0, k as int) =~= t@);
    }
    while k > 0
        invariant
            k <= t@.len(),
            rfind_char(t@, c) == rfind_char(t@.subrange(0, k as int), c),
        decreases k,
    {
        let ghost pre = t@.subrange(0, k as int);
        if t[k - 1] == c {
            return Some(k - 1);
        }
        proof {
            assert(pre.drop_last() =~= t@.subrange(0, k - 1));
        }
        k = k - 1;
    }
    None
}

/// Where the command starts on the trimmed line `t`.
fn prompt_pos_exec(t: &Vec<char>) -> (r: Option<usize>)
    ensures
        r matches Some(p) ==> prompt_pos(t@) == Some(p as int) && p < t@.len(),
        r is None ==> prompt_pos(t@) is None,
{
    match find_prompt_exec(t, '$') {
        Some(p) => Some(p),
        None => match find_prompt_exec(t, '>') {
            Some(p) => Some(p),
            None => match rfind_exec(t, '$') {
                Some(p) => Some(p),
                None => rfind_exec(t, '>'),
            },
        },
    }
}

/// The first prompt symbol `c` on the line `t`.
fn find_prompt_exec(t: &Vec<char>, c: char) -> (r: Option<usize>)
    ensures
        r matches Some(p) ==> find_prompt(t@, c, 0) == Some(p as int) && p < t@.len(),
        r is None ==> find_prompt(t@, c, 0) is None,
{
    let mut i: usize = 0;
    while i < t.len()
        invariant
            i <= t@.len(),
            find_prompt(t@, c, 0) == find_prompt(t@, c, i as int),
        decreases t@.len() - i,
    {
        if t[i] == c && (i + 1 == t.len() || is_whitespace(t[i + 1])) {
            return Some(i);
        }
        i = i + 1;
    }
    None
}

} // verus!
