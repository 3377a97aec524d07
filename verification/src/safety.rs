//! The three-tier risk engine for proposed fix commands.

use vstd::prelude::*;

use crate::text::{
    ascii_lower, chars_of, contains_seq, occurs_at, in_trim_set, is_white_space,
    lemma_same_trim_positions, lemma_trim_window, contains_str, lemma_trim_keeps, string_from_chars,
    to_lowercase, trim, trim_chars, unicode_lowercase, TrimSet,
};

verus! {

/// How dangerous a command is.
#[derive(Debug, PartialEq, Eq, Clone, Copy)]
pub enum RiskLevel {
    /// Non-destructive; a plain yes/no confirmation suffices.
    Safe,
    /// Destructive or state altering; needs an explicit `CONFIRM`.
    HighRisk,
    /// Catastrophic and unrecoverable; never run.
    Critical,
}

/// Root or home directory obliteration.
pub open spec fn wipes_root_or_home(cmd: Seq<char>) -> bool {
    ||| contains_seq(cmd, "rm -rf /"@)
    ||| contains_seq(cmd, "rm -rf /*"@)
    ||| contains_seq(cmd, "rm -rf ~"@)
    ||| contains_seq(cmd, "rm -rf $home"@)
    ||| contains_seq(cmd, "rm -rf /root"@)
    ||| contains_seq(cmd, "rm -rf c:\\"@)
    ||| contains_seq(cmd, "rm -rf c:/*"@)
    ||| contains_seq(cmd, "del /f /s /q c:\\"@)
}

/// Disk formatting and block device overwrite.
pub open spec fn overwrites_disk(cmd: Seq<char>) -> bool {
    ||| contains_seq(cmd, "mkfs."@)
    ||| contains_seq(cmd, "mkfs "@)
    ||| contains_seq(cmd, "dd if=/dev/zero"@)
    ||| contains_seq(cmd, "dd if=/dev/urandom"@)
    ||| contains_seq(cmd, "dd if=/dev/null"@)
    ||| (contains_seq(cmd, "dd "@) && contains_seq(cmd, "of=/dev/sd"@))
    ||| (contains_seq(cmd, "dd "@) && contains_seq(cmd, "of=/dev/nvme"@))
    ||| contains_seq(cmd, "> /dev/sd"@)
    ||| contains_seq(cmd, "> /dev/nvme"@)
}

/// Fork bombs.
pub open spec fn is_fork_bomb(cmd: Seq<char>) -> bool {
    contains_seq(cmd, ":(){ :|:& };:"@) || contains_seq(cmd, "forkbomb"@)
}

/// Catastrophic, system-wide destruction.
pub open spec fn is_critical(cmd: Seq<char>) -> bool {
    wipes_root_or_home(cmd) || overwrites_disk(cmd) || is_fork_bomb(cmd)
}

/// Destructive or state-altering operations.
pub open spec fn is_high_risk(cmd: Seq<char>) -> bool {
    ||| contains_seq(cmd, "rm -rf"@)
    ||| contains_seq(cmd, "rm -r"@)
    ||| contains_seq(cmd, "rm -f"@)
    ||| contains_seq(cmd, "rmdir"@)
    ||| contains_seq(cmd, "git reset --hard"@)
    ||| contains_seq(cmd, "git clean -f"@)
    ||| contains_seq(cmd, "git push -f"@)
    ||| contains_seq(cmd, "git push --force"@)
    ||| contains_seq(cmd, "git branch -d"@)
    ||| contains_seq(cmd, "git branch -D"@)
    ||| contains_seq(cmd, "drop table"@)
    ||| contains_seq(cmd, "drop database"@)
    ||| contains_seq(cmd, "truncate table"@)
    ||| contains_seq(cmd, "kill -9"@)
    ||| contains_seq(cmd, "pkill -9"@)
    ||| contains_seq(cmd, "iptables -f"@)
    ||| contains_seq(cmd, "chmod -r 777"@)
}

/// The risk of an already trimmed and lower-cased command.
pub open spec fn risk_of(lower: Seq<char>) -> RiskLevel {
    if is_critical(lower) {
        RiskLevel::Critical
    } else if is_high_risk(lower) {
        RiskLevel::HighRisk
    } else {
        RiskLevel::Safe
    }
}

/// Law: the risk engine's pattern lists. A trimmed, lower-cased command is
/// `Critical` exactly when it contains one of the patterns of root or home
/// wiping, disk formatting or overwriting, or fork bombs below; otherwise
/// it is `HighRisk` exactly when it contains one of the seventeen
/// destructive-operation patterns below; otherwise it is `Safe`.
pub proof fn law_risk_patterns(lower: Seq<char>)
    ensures
        ({
            let critical = {
                ||| contains_seq(lower, "rm -rf /"@)
                ||| contains_seq(lower, "rm -rf /*"@)
                ||| contains_seq(lower, "rm -rf ~"@)
                ||| contains_seq(lower, "rm -rf $home"@)
                ||| contains_seq(lower, "rm -rf /root"@)
                ||| contains_seq(lower, "rm -rf c:\\"@)
                ||| contains_seq(lower, "rm -rf c:/*"@)
                ||| contains_seq(lower, "del /f /s /q c:\\"@)
                ||| contains_seq(lower, "mkfs."@)
                ||| contains_seq(lower, "mkfs "@)
                ||| contains_seq(lower, "dd if=/dev/zero"@)
                ||| contains_seq(lower, "dd if=/dev/urandom"@)
                ||| contains_seq(lower, "dd if=/dev/null"@)
                ||| contains_seq(lower, "> /dev/sd"@)
                ||| contains_seq(lower, "> /dev/nvme"@)
                ||| contains_seq(lower, ":(){ :|:& };:"@)
                ||| contains_seq(lower, "forkbomb"@)
                ||| (contains_seq(lower, "dd "@) && contains_seq(lower, "of=/dev/sd"@))
                ||| (contains_seq(lower, "dd "@) && contains_seq(lower, "of=/dev/nvme"@))
            };
            let high = {
                ||| contains_seq(lower, "rm -rf"@)
                ||| contains_seq(lower, "rm -r"@)
                ||| contains_seq(lower, "rm -f"@)
                ||| contains_seq(lower, "rmdir"@)
                ||| contains_seq(lower, "git reset --hard"@)
                ||| contains_seq(lower, "git clean -f"@)
                ||| contains_seq(lower, "git push -f"@)
                ||| contains_seq(lower, "git push --force"@)
                ||| contains_seq(lower, "git branch -d"@)
                ||| contains_seq(lower, "git branch -D"@)
                ||| contains_seq(lower, "drop table"@)
                ||| contains_seq(lower, "drop database"@)
                ||| contains_seq(lower, "truncate table"@)
                ||| contains_seq(lower, "kill -9"@)
                ||| contains_seq(lower, "pkill -9"@)
                ||| contains_seq(lower, "iptables -f"@)
                ||| contains_seq(lower, "chmod -r 777"@)
            };
            &&& (risk_of(lower) == RiskLevel::Critical) == critical
            &&& (risk_of(lower) == RiskLevel::HighRisk) == (!critical && high)
            &&& (risk_of(lower) == RiskLevel::Safe) == (!critical && !high)
        }),
{
}

/// Severity order of the risk levels.
pub open spec fn severity(r: RiskLevel) -> int {
    match r {
        RiskLevel::Safe => 0,
        RiskLevel::HighRisk => 1,
        RiskLevel::Critical => 2,
    }
}

/// Text containing every pattern that `x` contains is at least as risky.
pub proof fn lemma_risk_monotone(x: Seq<char>, y: Seq<char>)
    requires
        forall|p: Seq<char>| contains_seq(x, p) ==> contains_seq(y, p),
    ensures
        severity(risk_of(x)) <= severity(risk_of(y)),
{
}

/// An occurrence of `x` in `y` carries every pattern of `x` over to `y`.
pub proof fn lemma_occurrence_contains(x: Seq<char>, y: Seq<char>, o: int)
    requires
        occurs_at(y, x, o),
    ensures
        forall|p: Seq<char>| contains_seq(x, p) ==> contains_seq(y, p),
{
    assert forall|p: Seq<char>| contains_seq(x, p) implies contains_seq(y, p) by {
        let i = choose|i: int| occurs_at(x, p, i);
        assert(y.subrange(o + i, o + i + p.len()) =~= x.subrange(i, i + p.len()));
        assert(occurs_at(y, p, o + i));
    }
}

/// Law: appending text to a lower-cased command never makes it look less
/// dangerous.
pub proof fn law_risk_never_drops_when_extended(lower: Seq<char>, more: Seq<char>)
    ensures
        severity(risk_of(lower)) <= severity(risk_of(lower + more)),
{
    assert((lower + more).subrange(0, lower.len() as int) =~= lower);
    lemma_occurrence_contains(lower, lower + more, 0);
    lemma_risk_monotone(lower, lower + more);
}

/// Law: putting text before or after a command never makes it look less
/// dangerous, so a dangerous command cannot be disguised by surrounding it
/// (as in `cd / && rm -rf / ; echo done`). For ASCII commands this is the
/// risk `evaluate_risk` gives.
pub proof fn law_risk_never_drops_when_surrounded(before: Seq<char>, cmd: Seq<char>, after: Seq<char>)
    ensures
        severity(ascii_command_risk(cmd)) <= severity(ascii_command_risk(before + cmd + after)),
{
    let w = before + cmd + after;
    let n = before.len() as int;
    let (sa, sb) = lemma_trim_window(cmd, TrimSet::Whitespace);
    let (wa, wb) = lemma_trim_window(w, TrimSet::Whitespace);
    let ts = trim(cmd);
    let tw = trim(w);
    let o = if sa < sb {
        assert(w[n + sa] == cmd[sa]);
        assert(w[n + sb - 1] == cmd[sb - 1]);
        assert(wa <= n + sa);
        assert(wb >= n + sb);
        assert(ts =~= w.subrange(n + sa, n + sb));
        assert(tw.subrange(n + sa - wa, n + sb - wa) =~= ts);
        n + sa - wa
    } else {
        assert(tw.subrange(0, 0) =~= ts);
        0
    };
    assert(occurs_at(tw, ts, o));
    let f = |c: char| ascii_lower(c);
    let lts = ts.map_values(f);
    let ltw = tw.map_values(f);
    assert(ltw.subrange(o, o + lts.len()) =~= lts);
    lemma_occurrence_contains(lts, ltw, o);
    lemma_risk_monotone(lts, ltw);
}

/// Law: whitespace around a command does not change its risk.
pub proof fn law_risk_ignores_padding(before: Seq<char>, cmd: Seq<char>, after: Seq<char>)
    requires
        forall|i: int| 0 <= i < before.len() ==> is_white_space(#[trigger] before[i]),
        forall|i: int| 0 <= i < after.len() ==> is_white_space(#[trigger] after[i]),
    ensures
        trim(before + cmd + after) == trim(cmd),
        ascii_command_risk(before + cmd + after) == ascii_command_risk(cmd),
{
    let w = before + cmd + after;
    let n = before.len() as int;
    let (sa, sb) = lemma_trim_window(cmd, TrimSet::Whitespace);
    let (wa, wb) = lemma_trim_window(w, TrimSet::Whitespace);
    assert forall|k: int| 0 <= k < n implies is_white_space(#[trigger] w[k]) by {
        assert(w[k] == before[k]);
    }
    assert forall|k: int| n + cmd.len() <= k < w.len() implies is_white_space(#[trigger] w[k]) by {
        assert(w[k] == after[k - n - cmd.len()]);
    }
    if sa < sb {
        assert(w[n + sa] == cmd[sa]);
        assert(w[n + sb - 1] == cmd[sb - 1]);
        assert forall|k: int| 0 <= k < n + sa implies is_white_space(#[trigger] w[k]) by {
            if k >= n {
                assert(w[k] == cmd[k - n]);
            }
        }
        assert forall|k: int| n + sb <= k < w.len() implies is_white_space(#[trigger] w[k]) by {
            if k < n + cmd.len() {
                assert(w[k] == cmd[k - n]);
            }
        }
        assert(wa == n + sa);
        assert(wb == n + sb);
        assert(trim(w) =~= trim(cmd));
    } else {
        assert forall|k: int| 0 <= k < w.len() implies is_white_space(#[trigger] w[k]) by {
            if n <= k < n + cmd.len() {
                assert(w[k] == cmd[k - n]);
                if k - n < sa {
                } else {
                }
            }
        }
        if wa < w.len() {
            assert(!is_white_space(w[wa]));
        }
        assert(trim(w) =~= trim(cmd));
    }
}

/// Law: letter case does not change the risk of an ASCII command: two
/// ASCII commands that agree once lower-cased are equally risky (so
/// `evaluate_risk(s) == evaluate_risk(s.to_ascii_uppercase())`).
pub proof fn law_risk_ignores_case(a: Seq<char>, b: Seq<char>)
    requires
        vstd::utf8::is_ascii_chars(a),
        vstd::utf8::is_ascii_chars(b),
        a.map_values(|c: char| ascii_lower(c)) == b.map_values(|c: char| ascii_lower(c)),
    ensures
        ascii_command_risk(a) == ascii_command_risk(b),
{
    let l = a.map_values(|c: char| ascii_lower(c));
    lemma_lowered_trim(a);
    lemma_lowered_trim(b);
}

/// For ASCII text, trimming then lower-casing is lower-casing then trimming.
proof fn lemma_lowered_trim(a: Seq<char>)
    requires
        vstd::utf8::is_ascii_chars(a),
    ensures
        trim(a).map_values(|c: char| ascii_lower(c)) == trim(
            a.map_values(|c: char| ascii_lower(c)),
        ),
{
    let l = a.map_values(|c: char| ascii_lower(c));
    assert forall|k: int| 0 <= k < a.len() implies in_trim_set(TrimSet::Whitespace, #[trigger] a[k])
        == in_trim_set(TrimSet::Whitespace, l[k]) by {
        assert(l[k] == ascii_lower(a[k]));
        if 'A' <= a[k] && a[k] <= 'Z' {
            assert('a' <= l[k] && l[k] <= 'z');
        }
    }
    lemma_same_trim_positions(a, l, TrimSet::Whitespace);
    let (x0, x1) = lemma_trim_window(a, TrimSet::Whitespace);
    let (y0, y1) = lemma_trim_window(l, TrimSet::Whitespace);
    assert(x0 == y0 && x1 == y1);
    assert(trim(a).map_values(|c: char| ascii_lower(c)) =~= l.subrange(y0, y1));
}

/// No ASCII capital letter occurs in `s`.
pub open spec fn no_ascii_capitals(s: Seq<char>) -> bool {
    forall|i: int| 0 <= i < s.len() ==> !('A' <= #[trigger] s[i] && s[i] <= 'Z')
}

/// The high-risk patterns that can match lower-cased text (all but the
/// one spelled with a capital).
pub open spec fn is_high_risk_lowered(cmd: Seq<char>) -> bool {
    ||| contains_seq(cmd, "rm -rf"@)
    ||| contains_seq(cmd, "rm -r"@)
    ||| contains_seq(cmd, "rm -f"@)
    ||| contains_seq(cmd, "rmdir"@)
    ||| contains_seq(cmd, "git reset --hard"@)
    ||| contains_seq(cmd, "git clean -f"@)
    ||| contains_seq(cmd, "git push -f"@)
    ||| contains_seq(cmd, "git push --force"@)
    ||| contains_seq(cmd, "git branch -d"@)
    ||| contains_seq(cmd, "drop table"@)
    ||| contains_seq(cmd, "drop database"@)
    ||| contains_seq(cmd, "truncate table"@)
    ||| contains_seq(cmd, "kill -9"@)
    ||| contains_seq(cmd, "pkill -9"@)
    ||| contains_seq(cmd, "iptables -f"@)
    ||| contains_seq(cmd, "chmod -r 777"@)
}

/// The risk of lower-cased text by the patterns that can match it.
pub open spec fn lowered_risk(lower: Seq<char>) -> RiskLevel {
    if is_critical(lower) {
        RiskLevel::Critical
    } else if is_high_risk_lowered(lower) {
        RiskLevel::HighRisk
    } else {
        RiskLevel::Safe
    }
}

/// Law: on text without capitals, the pattern `git branch -D` never
/// matches, so the risk is decided by the other patterns alone.
pub proof fn law_capital_pattern_never_matches(lower: Seq<char>)
    requires
        no_ascii_capitals(lower),
    ensures
        !contains_seq(lower, "git branch -D"@),
        risk_of(lower) == lowered_risk(lower),
{
    reveal_strlit("git branch -D");
    if contains_seq(lower, "git branch -D"@) {
        let i = choose|i: int| occurs_at(lower, "git branch -D"@, i);
        assert(lower.subrange(i, i + 13)[12] == lower[i + 12]);
        assert(lower[i + 12] == 'D');
    }
}

/// The risk of an ASCII command: trimmed, then ASCII lower-cased.
pub open spec fn ascii_command_risk(cmd: Seq<char>) -> RiskLevel {
    risk_of(trim(cmd).map_values(|c: char| ascii_lower(c)))
}

/// The risk of a command as typed: trimmed, then lower-cased.
pub open spec fn command_risk(cmd: Seq<char>) -> RiskLevel {
    risk_of(unicode_lowercase(trim(cmd)))
}

/// Rates a command: `Critical`, else `HighRisk`, else `Safe`, after trimming
/// it and lower-casing it.
pub fn evaluate_risk(cmd: &str) -> (r: RiskLevel)
    ensures
        r == command_risk(cmd@),
        r == lowered_risk(unicode_lowercase(trim(cmd@))),
        vstd::utf8::is_ascii_chars(cmd@) ==> r == ascii_command_risk(cmd@),
{
    let cs = chars_of(cmd);
    let trimmed = trim_chars(&cs, TrimSet::Whitespace);
    let t = string_from_chars(&trimmed);
    let lower = to_lowercase(t.as_str());
    proof {
        let ascii = |c: char| '\0' <= c && c <= '\u{7f}';
        if vstd::utf8::is_ascii_chars(cmd@) {
            assert forall|i: int| 0 <= i < cmd@.len() implies ascii(#[trigger] cmd@[i]) by {}
            lemma_trim_keeps(cmd@, TrimSet::Whitespace, ascii);
            let tr = trim(cmd@);
            assert forall|i: int| 0 <= i < tr.len() implies '\0' <= #[trigger] tr[i] && tr[i]
                <= '\u{7f}' by {
                assert(ascii(tr[i]));
            }
        }
    }
    proof {
        law_capital_pattern_never_matches(lower@);
    }
    classify_lowered(lower.as_str())
}

/// Rates an already trimmed and lower-cased command.
pub fn classify_lowered(lower: &str) -> (r: RiskLevel)
    ensures
        r == risk_of(lower@),
{
    let cs = chars_of(lower);
    if is_critical_system_destruction(&cs) {
        return RiskLevel::Critical;
    }
    if contains_str(&cs, "rm -rf") || contains_str(&cs, "rm -r") || contains_str(&cs, "rm -f")
        || contains_str(&cs, "rmdir") || contains_str(&cs, "git reset --hard") || contains_str(
        &cs,
        "git clean -f",
    ) || contains_str(&cs, "git push -f") || contains_str(&cs, "git push --force")
        || contains_str(&cs, "git branch -d") || contains_str(&cs, "git branch -D")
        || contains_str(&cs, "drop table") || contains_str(&cs, "drop database") || contains_str(
        &cs,
        "truncate table",
    ) || contains_str(&cs, "kill -9") || contains_str(&cs, "pkill -9") || contains_str(
        &cs,
        "iptables -f",
    ) || contains_str(&cs, "chmod -r 777") {
        return RiskLevel::HighRisk;
    }
    RiskLevel::Safe
}

fn is_critical_system_destruction(cmd: &Vec<char>) -> (r: bool)
    ensures
        r == is_critical(cmd@),
{
    if contains_str(cmd, "rm -rf /") || contains_str(cmd, "rm -rf /*") || contains_str(
        cmd,
        "rm -rf ~",
    ) || contains_str(cmd, "rm -rf $home") || contains_str(cmd, "rm -rf /root")
        || contains_str(cmd, "rm -rf c:\\") || contains_str(cmd, "rm -rf c:/*") || contains_str(
        cmd,
        "del /f /s /q c:\\",
    ) {
        return true;
    }
    if contains_str(cmd, "mkfs.") || contains_str(cmd, "mkfs ") || contains_str(
        cmd,
        "dd if=/dev/zero",
    ) || contains_str(cmd, "dd if=/dev/urandom") || contains_str(cmd, "dd if=/dev/null") || (
    contains_str(cmd, "dd ") && contains_str(cmd, "of=/dev/sd")) || (contains_str(cmd, "dd ")
        && contains_str(cmd, "of=/dev/nvme")) || (contains_str(cmd, "> /dev/sd") || contains_str(
        cmd,
        "> /dev/nvme",
    )) {
        return true;
    }
    if contains_str(cmd, ":(){ :|:& };:") || contains_str(cmd, "forkbomb") {
        return true;
    }
    false
}

} // verus!
