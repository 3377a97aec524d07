//! The interactive session: what happens after each finished command, and
//! how key presses are forwarded to the shell.
//!
//! A failed command is sent for diagnosis; the suggested fix is remembered.
//! Typing `f` or `fix` stages it behind a confirmation whose form depends on
//! the fix's risk: a yes/no answer for safe fixes, the word `CONFIRM` for
//! high-risk ones; critical fixes are refused outright. Nothing runs unless
//! the very next command answers the prompt.

use vstd::prelude::*;
use vstd::utf8::{encode_utf8, is_ascii_chars};

use crate::safety::{command_risk, evaluate_risk, RiskLevel};
use crate::text::{
    ascii_lower, in_trim_set, lemma_trim_keeps, lemma_trim_window, chars_eq_str, chars_of, contains_seq, contains_str, encode_char_utf8, is_alphanumeric,
    push_int, push_str, signed_decimal, string_from_chars, to_lowercase, trim, trim_chars,
    unicode_alphanumeric, unicode_lowercase, TrimSet,
};

verus! {

broadcast use vstd::seq::group_seq_axioms;

/// A fix together with its risk.
pub struct StagedFix {
    pub fix: String,
    pub risk: RiskLevel,
}

/// Abstract session state: the last suggested fix and the fix awaiting an
/// answer, each with its risk.
pub struct SessionModel {
    pub suggestion: Option<(Seq<char>, RiskLevel)>,
    pub pending: Option<(Seq<char>, RiskLevel)>,
}

/// What the session asks its driver to do.
#[derive(Debug, PartialEq, Eq)]
pub enum SessionAction {
    /// Nothing to do.
    Nothing,
    /// Run this fix in the shell: the user confirmed it.
    ExecuteFix { fix: String },
    /// The user declined the staged fix.
    CancelFix,
    /// Ask the user to confirm this fix, in the form its risk calls for.
    PromptFix { fix: String, risk: RiskLevel },
    /// This fix is critical and will not be run.
    BlockFix { fix: String },
    /// `fix` was typed but there is no suggestion.
    NoPendingFix,
    /// Run the doctor on this command line.
    RunDoctor { command: String },
    /// Ask the daemon to diagnose this failed command.
    Diagnose { command: String, exit_code: i32 },
}

/// Abstract form of an action.
pub enum ActionModel {
    Nothing,
    ExecuteFix { fix: Seq<char> },
    CancelFix,
    PromptFix { fix: Seq<char>, risk: RiskLevel },
    BlockFix { fix: Seq<char> },
    NoPendingFix,
    RunDoctor { command: Seq<char> },
    Diagnose { command: Seq<char>, exit_code: i32 },
}

impl View for SessionAction {
    type V = ActionModel;

    open spec fn view(&self) -> ActionModel {
        match self {
            SessionAction::Nothing => ActionModel::Nothing,
            SessionAction::ExecuteFix { fix } => ActionModel::ExecuteFix { fix: fix@ },
            SessionAction::CancelFix => ActionModel::CancelFix,
            SessionAction::PromptFix { fix, risk } => ActionModel::PromptFix { fix: fix@, risk: *risk },
            SessionAction::BlockFix { fix } => ActionModel::BlockFix { fix: fix@ },
            SessionAction::NoPendingFix => ActionModel::NoPendingFix,
            SessionAction::RunDoctor { command } => ActionModel::RunDoctor { command: command@ },
            SessionAction::Diagnose { command, exit_code } => ActionModel::Diagnose {
                command: command@,
                exit_code: *exit_code,
            },
        }
    }
}

/// The alphanumeric characters of `s`, in order.
pub open spec fn alnum_only(s: Seq<char>) -> Seq<char>
    decreases s.len(),
{
    if s.len() == 0 {
        Seq::empty()
    } else {
        alnum_only(s.drop_last()) + if unicode_alphanumeric(s.last()) {
            seq![s.last()]
        } else {
            Seq::empty()
        }
    }
}

/// An ASCII letter or digit.
pub open spec fn ascii_alnum(c: char) -> bool {
    ('a' <= c && c <= 'z') || ('A' <= c && c <= 'Z') || ('0' <= c && c <= '9')
}

/// The ASCII letters and digits of `s`, in order.
pub open spec fn ascii_alnum_only(s: Seq<char>) -> Seq<char>
    decreases s.len(),
{
    if s.len() == 0 {
        Seq::empty()
    } else {
        ascii_alnum_only(s.drop_last()) + if ascii_alnum(s.last()) {
            seq![s.last()]
        } else {
            Seq::empty()
        }
    }
}

/// The answer to a prompt accepts the staged fix: `CONFIRM` exactly for a
/// high-risk fix, a word starting with `y` for any other.
pub open spec fn accepts(risk: RiskLevel, clean_lower: Seq<char>, clean_raw: Seq<char>) -> bool {
    match risk {
        RiskLevel::HighRisk => clean_raw == "CONFIRM"@,
        _ => clean_lower.len() > 0 && clean_lower[0] == 'y',
    }
}

/// One step of the session after a command finished. `command` is the
/// command line, `lowered` its trimmed lower-cased form, `clean_lower` and
/// `clean_raw` the alphanumeric characters of the lower-cased and of the
/// trimmed form.
pub open spec fn session_step(
    m: SessionModel,
    command: Seq<char>,
    lowered: Seq<char>,
    clean_lower: Seq<char>,
    clean_raw: Seq<char>,
    exit_code: i32,
) -> (SessionModel, ActionModel) {
    match m.pending {
        Some((fix, risk)) => (
            SessionModel { pending: None, ..m },
            if accepts(risk, clean_lower, clean_raw) {
                ActionModel::ExecuteFix { fix }
            } else {
                ActionModel::CancelFix
            },
        ),
        None => {
            if clean_lower == "fix"@ || clean_lower == "f"@ {
                match m.suggestion {
                    Some((fix, risk)) => if risk == RiskLevel::Critical {
                        (SessionModel { suggestion: None, ..m }, ActionModel::BlockFix { fix })
                    } else {
                        (
                            SessionModel { suggestion: None, pending: Some((fix, risk)) },
                            ActionModel::PromptFix { fix, risk },
                        )
                    },
                    None => (m, ActionModel::NoPendingFix),
                }
            } else if contains_seq(lowered, "ghost doctor"@) {
                (m, ActionModel::RunDoctor { command })
            } else if exit_code != 0 {
                (m, ActionModel::Diagnose { command, exit_code })
            } else {
                (m, ActionModel::Nothing)
            }
        },
    }
}

/// Every fix the session holds carries its true risk, and no critical fix
/// is ever awaiting confirmation.
pub open spec fn session_sound(m: SessionModel) -> bool {
    &&& (m.suggestion matches Some((f, r)) ==> r == command_risk(f))
    &&& (m.pending matches Some((f, r)) ==> r == command_risk(f) && r != RiskLevel::Critical)
}

/// Law: nothing runs without confirmation. A fix is executed only as the
/// answer to its own prompt: it is the fix that was awaiting confirmation,
/// it is not critical, and the answer accepts it (`CONFIRM` exactly when it
/// is high-risk, a word starting with `y` otherwise).
pub proof fn law_fix_runs_only_when_confirmed(
    m: SessionModel,
    command: Seq<char>,
    lowered: Seq<char>,
    clean_lower: Seq<char>,
    clean_raw: Seq<char>,
    exit_code: i32,
)
    requires
        session_sound(m),
    ensures
        ({
            let action = session_step(m, command, lowered, clean_lower, clean_raw, exit_code).1;
            action is ExecuteFix ==> {
                let fix = action->ExecuteFix_fix;
                &&& m.pending == Some((fix, command_risk(fix)))
                &&& command_risk(fix) != RiskLevel::Critical
                &&& accepts(command_risk(fix), clean_lower, clean_raw)
                &&& command_risk(fix) == RiskLevel::HighRisk ==> clean_raw == "CONFIRM"@
            }
        }),
{
}

/// The letters and digits of `s` in order start with `s[k]`: where the
/// first ASCII letter or digit of `s` stands, when there is one.
proof fn lemma_first_ascii_alnum(s: Seq<char>)
    ensures
        ascii_alnum_only(s).len() > 0 ==> exists|k: int|
            {
                &&& 0 <= k < s.len()
                &&& ascii_alnum(s[k])
                &&& ascii_alnum_only(s)[0] == s[k]
                &&& forall|j: int| 0 <= j < k ==> !ascii_alnum(#[trigger] s[j])
            },
        ascii_alnum_only(s).len() == 0 ==> forall|k: int|
            0 <= k < s.len() ==> !ascii_alnum(#[trigger] s[k]),
    decreases s.len(),
{
    if s.len() > 0 {
        let d = s.drop_last();
        lemma_first_ascii_alnum(d);
        assert forall|k: int| 0 <= k < d.len() implies s[k] == #[trigger] d[k] by {}
        if ascii_alnum_only(d).len() > 0 {
            let k = choose|k: int|
                {
                    &&& 0 <= k < d.len()
                    &&& ascii_alnum(d[k])
                    &&& ascii_alnum_only(d)[0] == d[k]
                    &&& forall|j: int| 0 <= j < k ==> !ascii_alnum(#[trigger] d[j])
                };
            assert(s[k] == d[k]);
            assert forall|j: int| 0 <= j < k implies !ascii_alnum(#[trigger] s[j]) by {
                assert(s[j] == d[j]);
            }
        } else if ascii_alnum(s.last()) {
            let k = s.len() - 1;
            assert(ascii_alnum_only(s)[0] == s[k]);
            assert forall|j: int| 0 <= j < k implies !ascii_alnum(#[trigger] s[j]) by {
                assert(s[j] == d[j]);
            }
        } else {
            assert forall|k: int| 0 <= k < s.len() implies !ascii_alnum(#[trigger] s[k]) by {
                if k < d.len() {
                    assert(s[k] == d[k]);
                }
            }
        }
    }
}

/// ASCII lower-casing keeps letters and digits what they are, and gives `y`
/// exactly for `y` and `Y`, `c` exactly for `c` and `C`.
proof fn lemma_ascii_lower_class(c: char)
    ensures
        ascii_alnum(ascii_lower(c)) == ascii_alnum(c),
        (ascii_lower(c) == 'y') == (c == 'y' || c == 'Y'),
        (ascii_lower(c) == 'c') == (c == 'c' || c == 'C'),
{
}

/// The first ASCII letter or digit of a trimmed, lower-cased answer is the
/// first of the answer itself, lower-cased; with none there, there is none
/// in the answer.
proof fn lemma_answer_first_alnum(answer: Seq<char>)
    ensures
        ({
            let t = trim(answer);
            let cl = ascii_alnum_only(t.map_values(|c: char| ascii_lower(c)));
            &&& cl.len() > 0 ==> exists|k: int|
                {
                    &&& 0 <= k < answer.len()
                    &&& ascii_alnum(answer[k])
                    &&& cl[0] == ascii_lower(answer[k])
                    &&& forall|j: int| 0 <= j < k ==> !ascii_alnum(#[trigger] answer[j])
                }
            &&& cl.len() == 0 ==> forall|k: int|
                0 <= k < answer.len() ==> !ascii_alnum(#[trigger] answer[k])
        }),
{
    let t = trim(answer);
    let l = t.map_values(|c: char| ascii_lower(c));
    let (w0, w1) = lemma_trim_window(answer, TrimSet::Whitespace);
    lemma_first_ascii_alnum(l);
    assert forall|k: int| 0 <= k < l.len() implies #[trigger] l[k] == ascii_lower(t[k])
        && ascii_alnum(l[k]) == ascii_alnum(t[k]) && t[k] == answer[w0 + k] by {
        lemma_ascii_lower_class(t[k]);
    }
    assert forall|k: int| 0 <= k < answer.len() && !(w0 <= k < w1) implies !ascii_alnum(
        #[trigger] answer[k],
    ) by {
        assert(in_trim_set(TrimSet::Whitespace, answer[k]));
    }
    if ascii_alnum_only(l).len() > 0 {
        let k = choose|k: int|
            {
                &&& 0 <= k < l.len()
                &&& ascii_alnum(l[k])
                &&& ascii_alnum_only(l)[0] == l[k]
                &&& forall|j: int| 0 <= j < k ==> !ascii_alnum(#[trigger] l[j])
            };
        assert(ascii_alnum(answer[w0 + k]));
        assert forall|j: int| 0 <= j < w0 + k implies !ascii_alnum(#[trigger] answer[j]) by {
            if j >= w0 {
                assert(!ascii_alnum(l[j - w0]));
            }
        }
    } else {
        assert forall|k: int| 0 <= k < answer.len() implies !ascii_alnum(#[trigger] answer[k]) by {
            if w0 <= k < w1 {
                assert(!ascii_alnum(l[k - w0]));
            }
        }
    }
}

/// Law: the answer to a safe fix's prompt. While a fix that is not
/// high-risk awaits confirmation, an ASCII answer runs it exactly when the
/// answer's first letter or digit is `y` or `Y` (`y`, `Yes`, ` yep`);
/// any other answer (`n`, `no`, `ok`, or one with no letter or digit)
/// cancels it. Either way nothing awaits afterwards.
pub proof fn law_safe_fix_answer(m: SessionModel, answer: Seq<char>, exit_code: i32)
    requires
        is_ascii_chars(answer),
        m.pending is Some,
        m.pending.unwrap().1 != RiskLevel::HighRisk,
    ensures
        ({
            let t = trim(answer);
            let lowered = t.map_values(|c: char| ascii_lower(c));
            let r = session_step(
                m,
                answer,
                lowered,
                ascii_alnum_only(lowered),
                ascii_alnum_only(t),
                exit_code,
            );
            let letter_or_digit = |c: char|
                ('a' <= c && c <= 'z') || ('A' <= c && c <= 'Z') || ('0' <= c && c <= '9');
            let says_yes = exists|k: int|
                {
                    &&& 0 <= k < answer.len()
                    &&& (answer[k] == 'y' || answer[k] == 'Y')
                    &&& forall|j: int| 0 <= j < k ==> !letter_or_digit(#[trigger] answer[j])
                };
            &&& r.1 == (if says_yes {
                ActionModel::ExecuteFix { fix: m.pending.unwrap().0 }
            } else {
                ActionModel::CancelFix
            })
            &&& r.0.pending is None
        }),
{
    let t = trim(answer);
    let lowered = t.map_values(|c: char| ascii_lower(c));
    let cl = ascii_alnum_only(lowered);
    let letter_or_digit = |c: char|
        ('a' <= c && c <= 'z') || ('A' <= c && c <= 'Z') || ('0' <= c && c <= '9');
    let says_yes = exists|k: int|
        {
            &&& 0 <= k < answer.len()
            &&& (answer[k] == 'y' || answer[k] == 'Y')
            &&& forall|j: int| 0 <= j < k ==> !letter_or_digit(#[trigger] answer[j])
        };
    lemma_answer_first_alnum(answer);
    if cl.len() > 0 {
        let k = choose|k: int|
            {
                &&& 0 <= k < answer.len()
                &&& ascii_alnum(answer[k])
                &&& cl[0] == ascii_lower(answer[k])
                &&& forall|j: int| 0 <= j < k ==> !ascii_alnum(#[trigger] answer[j])
            };
        lemma_ascii_lower_class(answer[k]);
        if cl[0] == 'y' {
            assert forall|j: int| 0 <= j < k implies !letter_or_digit(#[trigger] answer[j]) by {
                assert(!ascii_alnum(answer[j]));
            }
            assert(says_yes);
        } else if says_yes {
            let k2 = choose|k2: int|
                {
                    &&& 0 <= k2 < answer.len()
                    &&& (answer[k2] == 'y' || answer[k2] == 'Y')
                    &&& forall|j: int| 0 <= j < k2 ==> !letter_or_digit(#[trigger] answer[j])
                };
            if k < k2 {
                assert(!letter_or_digit(answer[k]));
            } else if k2 < k {
                assert(!ascii_alnum(answer[k2]));
            }
        }
    } else if says_yes {
        let k2 = choose|k2: int|
            {
                &&& 0 <= k2 < answer.len()
                &&& (answer[k2] == 'y' || answer[k2] == 'Y')
                &&& forall|j: int| 0 <= j < k2 ==> !letter_or_digit(#[trigger] answer[j])
            };
        assert(!ascii_alnum(answer[k2]));
    }
}

/// Law: the answer to a high-risk fix's prompt. While a high-risk fix
/// awaits confirmation, the answer `CONFIRM` runs it, and an ASCII answer
/// whose first letter or digit is not `C` (such as `y`, `yes` or `no`)
/// cancels it.
pub proof fn law_high_risk_fix_answer(m: SessionModel, answer: Seq<char>, exit_code: i32)
    requires
        is_ascii_chars(answer),
        m.pending is Some,
        m.pending.unwrap().1 == RiskLevel::HighRisk,
    ensures
        ({
            let t = trim(answer);
            let lowered = t.map_values(|c: char| ascii_lower(c));
            let r = session_step(
                m,
                answer,
                lowered,
                ascii_alnum_only(lowered),
                ascii_alnum_only(t),
                exit_code,
            );
            let letter_or_digit = |c: char|
                ('a' <= c && c <= 'z') || ('A' <= c && c <= 'Z') || ('0' <= c && c <= '9');
            &&& answer == "CONFIRM"@ ==> r.1 == ActionModel::ExecuteFix { fix: m.pending.unwrap().0 }
            &&& (exists|k: int|
                {
                    &&& 0 <= k < answer.len()
                    &&& letter_or_digit(answer[k])
                    &&& answer[k] != 'C'
                    &&& forall|j: int| 0 <= j < k ==> !letter_or_digit(#[trigger] answer[j])
                }) ==> r.1 == ActionModel::CancelFix
            &&& r.0.pending is None
        }),
{
    let t = trim(answer);
    let letter_or_digit = |c: char|
        ('a' <= c && c <= 'z') || ('A' <= c && c <= 'Z') || ('0' <= c && c <= '9');
    let raw = ascii_alnum_only(t);
    if answer == "CONFIRM"@ {
        reveal_strlit("CONFIRM");
        let (w0, w1) = lemma_trim_window(answer, TrimSet::Whitespace);
        assert(!in_trim_set(TrimSet::Whitespace, answer[0]));
        assert(!in_trim_set(TrimSet::Whitespace, answer[6]));
        assert(w0 == 0);
        assert(w1 == 7);
        assert(t =~= answer);
        reveal_with_fuel(ascii_alnum_only, 8);
        assert(raw =~= "CONFIRM"@);
    }
    if exists|k: int|
        {
            &&& 0 <= k < answer.len()
            &&& letter_or_digit(answer[k])
            &&& answer[k] != 'C'
            &&& forall|j: int| 0 <= j < k ==> !letter_or_digit(#[trigger] answer[j])
        } {
        let k = choose|k: int|
            {
                &&& 0 <= k < answer.len()
                &&& letter_or_digit(answer[k])
                &&& answer[k] != 'C'
                &&& forall|j: int| 0 <= j < k ==> !letter_or_digit(#[trigger] answer[j])
            };
        let (w0, w1) = lemma_trim_window(answer, TrimSet::Whitespace);
        assert(w0 <= k < w1) by {
            if k < w0 || k >= w1 {
                assert(in_trim_set(TrimSet::Whitespace, answer[k]));
            }
        }
        lemma_first_ascii_alnum(t);
        assert(t[k - w0] == answer[k]);
        if raw == "CONFIRM"@ {
            reveal_strlit("CONFIRM");
            let k2 = choose|k2: int|
                {
                    &&& 0 <= k2 < t.len()
                    &&& ascii_alnum(t[k2])
                    &&& raw[0] == t[k2]
                    &&& forall|j: int| 0 <= j < k2 ==> !ascii_alnum(#[trigger] t[j])
                };
            assert(t[k2] == answer[w0 + k2]);
            if k2 < k - w0 {
                assert(!letter_or_digit(answer[w0 + k2]));
            } else if k2 > k - w0 {
                assert(!ascii_alnum(t[k - w0]));
            }
        }
    }
}

/// Law: a prompt answers to exactly one command. While a fix awaits
/// confirmation, the next finished command is taken as the answer: the fix
/// is either executed or cancelled, and nothing awaits afterwards.
pub proof fn law_prompt_is_answered_once(
    m: SessionModel,
    command: Seq<char>,
    lowered: Seq<char>,
    clean_lower: Seq<char>,
    clean_raw: Seq<char>,
    exit_code: i32,
)
    requires
        m.pending is Some,
    ensures
        ({
            let (n, action) = session_step(m, command, lowered, clean_lower, clean_raw, exit_code);
            &&& n.pending is None
            &&& n.suggestion == m.suggestion
            &&& action is ExecuteFix || action is CancelFix
        }),
{
}

/// Law: only the remembered suggestion is ever staged, only once, and never
/// a critical one: typing `fix` either prompts for the last suggestion (a
/// non-critical one), refuses it (a critical one), or reports that there
/// is none.
pub proof fn law_staging(
    m: SessionModel,
    command: Seq<char>,
    lowered: Seq<char>,
    clean_lower: Seq<char>,
    clean_raw: Seq<char>,
    exit_code: i32,
)
    requires
        session_sound(m),
        m.pending is None,
        clean_lower == "fix"@ || clean_lower == "f"@,
    ensures
        ({
            let (n, action) = session_step(m, command, lowered, clean_lower, clean_raw, exit_code);
            &&& n.suggestion is None
            &&& match m.suggestion {
                Some((fix, risk)) => if risk == RiskLevel::Critical {
                    action == ActionModel::BlockFix { fix } && n.pending is None
                } else {
                    action == ActionModel::PromptFix { fix, risk } && n.pending == Some((fix, risk))
                },
                None => action == ActionModel::NoPendingFix,
            }
        }),
{
}

/// Law: a command that answers no prompt and is not `f` or `fix` leaves the
/// session as it was. It runs the doctor when its lower-cased form holds
/// `ghost doctor`; otherwise it is sent for diagnosis, with its exit code,
/// exactly when that code is not 0, and nothing happens when it is 0.
pub proof fn law_other_commands(
    m: SessionModel,
    command: Seq<char>,
    lowered: Seq<char>,
    clean_lower: Seq<char>,
    clean_raw: Seq<char>,
    exit_code: i32,
)
    requires
        m.pending is None,
        clean_lower != "fix"@,
        clean_lower != "f"@,
    ensures
        ({
            let (n, action) = session_step(m, command, lowered, clean_lower, clean_raw, exit_code);
            &&& n == m
            &&& contains_seq(lowered, "ghost doctor"@) ==> action == ActionModel::RunDoctor {
                command,
            }
            &&& !contains_seq(lowered, "ghost doctor"@) && exit_code != 0 ==> action
                == ActionModel::Diagnose { command, exit_code }
            &&& !contains_seq(lowered, "ghost doctor"@) && exit_code == 0 ==> action
                == ActionModel::Nothing
        }),
{
}

/// Law: every step keeps the session sound.
pub proof fn law_step_keeps_sound(
    m: SessionModel,
    command: Seq<char>,
    lowered: Seq<char>,
    clean_lower: Seq<char>,
    clean_raw: Seq<char>,
    exit_code: i32,
)
    requires
        session_sound(m),
    ensures
        session_sound(session_step(m, command, lowered, clean_lower, clean_raw, exit_code).0),
{
}

/// The session state kept between commands.
pub struct GhostSession {
    suggestion: Option<StagedFix>,
    pending: Option<StagedFix>,
}

pub open spec fn staged_view(s: Option<StagedFix>) -> Option<(Seq<char>, RiskLevel)> {
    match s {
        Some(f) => Some((f.fix@, f.risk)),
        None => None,
    }
}

impl View for GhostSession {
    type V = SessionModel;

    closed spec fn view(&self) -> SessionModel {
        SessionModel { suggestion: staged_view(self.suggestion), pending: staged_view(self.pending) }
    }
}

fn copy_staged(s: &StagedFix) -> (r: StagedFix)
    ensures
        r.fix@ == s.fix@,
        r.risk == s.risk,
{
    StagedFix { fix: s.fix.clone(), risk: s.risk }
}

/// The alphanumeric characters of `s`.
fn keep_alnum(s: &[char]) -> (r: Vec<char>)
    ensures
        r@ == alnum_only(s@),
        is_ascii_chars(s@) ==> r@ == ascii_alnum_only(s@),
{
    let mut r: Vec<char> = Vec::new();
    let mut i: usize = 0;
    while i < s.len()
        invariant
            i <= s@.len(),
            r@ == alnum_only(s@.subrange(0, i as int)),
            is_ascii_chars(s@) ==> r@ == ascii_alnum_only(s@.subrange(0, i as int)),
        decreases s@.len() - i,
    {
        let ghost pre = r@;
        let c = s[i];
        if is_alphanumeric(c) {
            r.push(c);
        }
        proof {
            let t = s@.subrange(0, i + 1);
            assert(t.drop_last() =~= s@.subrange(0, i as int));
            assert(t.last() == c);
            assert(r@ =~= alnum_only(t));
            if is_ascii_chars(s@) {
                assert(s@[i as int] == c);
                assert(r@ =~= ascii_alnum_only(t));
            }
        }
        i = i + 1;
    }
    proof {
        assert(s@.subrange(0, s@.len() as int) =~= s@);
    }
    r
}

impl GhostSession {
    #[verifier::type_invariant]
    closed spec fn inv(&self) -> bool {
        session_sound(self@)
    }

    /// A session with no suggestion and nothing awaiting confirmation.
    pub fn new() -> (s: Self)
        ensures
            s@.suggestion is None,
            s@.pending is None,
            session_sound(s@),
    {
        GhostSession { suggestion: None, pending: None }
    }

    /// Remembers the fix the daemon suggested, with its risk.
    pub fn on_diagnosis(&mut self, suggested_fix: String)
        ensures
            final(self)@.suggestion == Some((suggested_fix@, command_risk(suggested_fix@))),
            final(self)@.pending == old(self)@.pending,
            session_sound(final(self)@),
    {
        proof {
            use_type_invariant(&*self);
        }
        let risk = evaluate_risk(suggested_fix.as_str());
        self.suggestion = Some(StagedFix { fix: suggested_fix, risk });
    }

    /// Decides what to do after a command finished, from the command line
    /// as typed and its exit code.
    pub fn on_command_finished(&mut self, last_cmd: &str, exit_code: i32) -> (action:
        SessionAction)
        ensures
            ({
                let t = trim(last_cmd@);
                let lowered = unicode_lowercase(t);
                (final(self)@, action@) == session_step(
                    old(self)@,
                    last_cmd@,
                    lowered,
                    alnum_only(lowered),
                    alnum_only(t),
                    exit_code,
                )
            }),
            is_ascii_chars(last_cmd@) ==> ({
                let t = trim(last_cmd@);
                let lowered = t.map_values(|c: char| ascii_lower(c));
                (final(self)@, action@) == session_step(
                    old(self)@,
                    last_cmd@,
                    lowered,
                    ascii_alnum_only(lowered),
                    ascii_alnum_only(t),
                    exit_code,
                )
            }),
            session_sound(final(self)@),
    {
        let cs = chars_of(last_cmd);
        let t = trim_chars(&cs, TrimSet::Whitespace);
        proof {
            let ascii = |c: char| '\0' <= c && c <= '\u{7f}';
            if is_ascii_chars(last_cmd@) {
                assert forall|i: int| 0 <= i < last_cmd@.len() implies ascii(
                    #[trigger] last_cmd@[i],
                ) by {}
                lemma_trim_keeps(last_cmd@, TrimSet::Whitespace, ascii);
                assert forall|i: int| 0 <= i < t@.len() implies '\0' <= #[trigger] t@[i] && t@[i]
                    <= '\u{7f}' by {
                    assert(ascii(t@[i]));
                }
            }
        }
        let ts = string_from_chars(&t);
        let lowered = to_lowercase(ts.as_str());
        proof {
            if is_ascii_chars(last_cmd@) {
                assert forall|i: int| 0 <= i < lowered@.len() implies '\0' <= #[trigger] lowered@[i]
                    && lowered@[i] <= '\u{7f}' by {
                    assert(lowered@[i] == ascii_lower(t@[i]));
                }
            }
        }
        let lc = chars_of(lowered.as_str());
        let clean_lower = keep_alnum(&lc);
        let clean_raw = keep_alnum(&t);
        let cl = string_from_chars(&clean_lower);
        let cr = string_from_chars(&clean_raw);
        self.step(last_cmd, lowered.as_str(), cl.as_str(), cr.as_str(), exit_code)
    }

    /// Decides what to do after a command finished, given the command line,
    /// its trimmed lower-cased form, and the alphanumeric characters of the
    /// lower-cased and of the trimmed form.
    pub fn step(
        &mut self,
        command: &str,
        lowered: &str,
        clean_lower: &str,
        clean_raw: &str,
        exit_code: i32,
    ) -> (action: SessionAction)
        ensures
            (final(self)@, action@) == session_step(
                old(self)@,
                command@,
                lowered@,
                clean_lower@,
                clean_raw@,
                exit_code,
            ),
            session_sound(old(self)@),
            session_sound(final(self)@),
    {
        proof {
            use_type_invariant(&*self);
        }
        let cl = chars_of(clean_lower);
        match &self.pending {
            Some(p) => {
                let ok = match p.risk {
                    RiskLevel::HighRisk => {
                        let cr = chars_of(clean_raw);
                        chars_eq_str(&cr, "CONFIRM")
                    },
                    _ => cl.len() > 0 && cl[0] == 'y',
                };
                let fix = p.fix.clone();
                self.pending = None;
                if ok {
                    return SessionAction::ExecuteFix { fix };
                } else {
                    return SessionAction::CancelFix;
                }
            },
            None => {},
        }
        if chars_eq_str(&cl, "fix") || chars_eq_str(&cl, "f") {
            match &self.suggestion {
                Some(s) => {
                    let staged = copy_staged(s);
                    self.suggestion = None;
                    if let RiskLevel::Critical = staged.risk {
                        return SessionAction::BlockFix { fix: staged.fix };
                    }
                    let fix = staged.fix.clone();
                    let risk = staged.risk;
                    self.pending = Some(staged);
                    return SessionAction::PromptFix { fix, risk };
                },
                None => {
                    return SessionAction::NoPendingFix;
                },
            }
        }
        let lw = chars_of(lowered);
        if contains_str(&lw, "ghost doctor") {
            return SessionAction::RunDoctor { command: String::from_str(command) };
        }
        if exit_code != 0 {
            return SessionAction::Diagnose { command: String::from_str(command), exit_code };
        }
        SessionAction::Nothing
    }
}

// ---------------------------------------------------------------------------
// Messages
// ---------------------------------------------------------------------------

/// What the session prints for an action.
pub open spec fn action_text(a: ActionModel) -> Seq<char> {
    match a {
        ActionModel::Nothing => Seq::empty(),
        ActionModel::RunDoctor { .. } => Seq::empty(),
        ActionModel::ExecuteFix { fix } => "\r\n\x1b[32m[Ghost Executing Fix]: "@ + fix
            + "\x1b[0m\r\n"@,
        ActionModel::CancelFix => "\r\n\x1b[31m[Ghost]: Fix execution canceled.\x1b[0m\r\n"@,
        ActionModel::PromptFix { fix, risk } => if risk == RiskLevel::HighRisk {
            "\r\n\x1b[31m[Ghost Safety Warning]: Command contains destructive/state-altering flags!\x1b[0m\r\n\x1b[33m[Ghost]: Execute fix '"@
                + fix + "'? Type 'CONFIRM' to run: \x1b[0m"@
        } else {
            "\r\n\x1b[33m[Ghost]: Execute fix '"@ + fix + "'? [y/N]: \x1b[0m"@
        },
        ActionModel::BlockFix { fix } => "\r\n\x1b[31m[Ghost Safety Block]: '"@ + fix
            + "' could destroy the system and will not be run.\x1b[0m\r\n"@,
        ActionModel::NoPendingFix => "\r\n\x1b[33m[Ghost]: No pending fix available.\x1b[0m\r\n"@,
        ActionModel::Diagnose { exit_code, .. } => "\r\n\x1b[33m[Ghost Intercepted Failure: Exit Code "@
            + signed_decimal(exit_code as int) + "]\x1b[0m\r\n"@,
    }
}

/// The message printed for an action.
pub fn action_message(action: &SessionAction) -> (s: String)
    ensures
        s@ == action_text(action@),
{
    let mut out: Vec<char> = Vec::new();
    match action {
        SessionAction::Nothing => {},
        SessionAction::RunDoctor { .. } => {},
        SessionAction::ExecuteFix { fix } => {
            push_str(&mut out, "\r\n\x1b[32m[Ghost Executing Fix]: ");
            push_str(&mut out, fix.as_str());
            push_str(&mut out, "\x1b[0m\r\n");
        },
        SessionAction::CancelFix => {
            push_str(&mut out, "\r\n\x1b[31m[Ghost]: Fix execution canceled.\x1b[0m\r\n");
        },
        SessionAction::PromptFix { fix, risk } => {
            if let RiskLevel::HighRisk = risk {
                push_str(
                    &mut out,
                    "\r\n\x1b[31m[Ghost Safety Warning]: Command contains destructive/state-altering flags!\x1b[0m\r\n\x1b[33m[Ghost]: Execute fix '",
                );
                push_str(&mut out, fix.as_str());
                push_str(&mut out, "'? Type 'CONFIRM' to run: \x1b[0m");
            } else {
                push_str(&mut out, "\r\n\x1b[33m[Ghost]: Execute fix '");
                push_str(&mut out, fix.as_str());
                push_str(&mut out, "'? [y/N]: \x1b[0m");
            }
        },
        SessionAction::BlockFix { fix } => {
            push_str(&mut out, "\r\n\x1b[31m[Ghost Safety Block]: '");
            push_str(&mut out, fix.as_str());
            push_str(&mut out, "' could destroy the system and will not be run.\x1b[0m\r\n");
        },
        SessionAction::NoPendingFix => {
            push_str(&mut out, "\r\n\x1b[33m[Ghost]: No pending fix available.\x1b[0m\r\n");
        },
        SessionAction::Diagnose { exit_code, .. } => {
            push_str(&mut out, "\r\n\x1b[33m[Ghost Intercepted Failure: Exit Code ");
            push_int(&mut out, *exit_code as i64);
            push_str(&mut out, "]\x1b[0m\r\n");
        },
    }
    proof {
        assert(out@ =~= action_text(action@));
    }
    string_from_chars(&out)
}

/// What the session prints for a diagnosis.
pub open spec fn diagnosis_text(diagnosis: Seq<char>, fix: Seq<char>) -> Seq<char> {
    "\x1b[36m[Ghost Diagnosis]: "@ + diagnosis + "\x1b[0m\r\n\x1b[32m[Suggested Fix]: "@ + fix
        + "\x1b[0m\r\n\x1b[33m[Type 'fix' or 'f' to auto-execute this fix]\x1b[0m\r\n"@
}

/// The message printed for a diagnosis and its suggested fix.
pub fn diagnosis_message(diagnosis: &str, suggested_fix: &str) -> (s: String)
    ensures
        s@ == diagnosis_text(diagnosis@, suggested_fix@),
{
    let mut out: Vec<char> = Vec::new();
    push_str(&mut out, "\x1b[36m[Ghost Diagnosis]: ");
    push_str(&mut out, diagnosis);
    push_str(&mut out, "\x1b[0m\r\n\x1b[32m[Suggested Fix]: ");
    push_str(&mut out, suggested_fix);
    push_str(&mut out, "\x1b[0m\r\n\x1b[33m[Type 'fix' or 'f' to auto-execute this fix]\x1b[0m\r\n");
    proof {
        assert(out@ =~= diagnosis_text(diagnosis@, suggested_fix@));
    }
    string_from_chars(&out)
}

// ---------------------------------------------------------------------------
// Keys
// ---------------------------------------------------------------------------

/// A key press, as far as forwarding it to the shell is concerned.
#[derive(Debug, PartialEq, Eq, Clone, Copy)]
pub enum KeyInput {
    /// A character, with or without Control held.
    Char { c: char, ctrl: bool },
    Enter,
    Backspace,
    Tab,
    Esc,
    Up,
    Down,
    Right,
    Left,
    /// Any other key; it is not forwarded.
    Other,
}

/// The bytes a key press sends to the shell: Control-C, -D, -Z and -L as
/// their control codes (other Control chords send nothing), characters as
/// UTF-8, and the editing keys as their usual codes and escape sequences.
pub open spec fn key_input_bytes(k: KeyInput) -> Seq<u8> {
    match k {
        KeyInput::Char { c, ctrl } => if ctrl {
            if c == 'c' || c == 'C' {
                seq![3u8]
            } else if c == 'd' || c == 'D' {
                seq![4u8]
            } else if c == 'z' || c == 'Z' {
                seq![26u8]
            } else if c == 'l' || c == 'L' {
                seq![12u8]
            } else {
                Seq::empty()
            }
        } else {
            encode_utf8(seq![c])
        },
        KeyInput::Enter => seq![13u8],
        KeyInput::Backspace => seq![8u8],
        KeyInput::Tab => seq![9u8],
        KeyInput::Esc => seq![27u8],
        KeyInput::Up => seq![27u8, 91u8, 65u8],
        KeyInput::Down => seq![27u8, 91u8, 66u8],
        KeyInput::Right => seq![27u8, 91u8, 67u8],
        KeyInput::Left => seq![27u8, 91u8, 68u8],
        KeyInput::Other => Seq::empty(),
    }
}

/// The bytes a key press sends to the shell.
pub fn key_bytes(key: KeyInput) -> (b: Vec<u8>)
    ensures
        b@ == key_input_bytes(key),
{
    let mut b: Vec<u8> = Vec::new();
    match key {
        KeyInput::Char { c, ctrl } => {
            if ctrl {
                if c == 'c' || c == 'C' {
                    b.push(3);
                } else if c == 'd' || c == 'D' {
                    b.push(4);
                } else if c == 'z' || c == 'Z' {
                    b.push(26);
                } else if c == 'l' || c == 'L' {
                    b.push(12);
                }
            } else {
                b = encode_char_utf8(c);
            }
        },
        KeyInput::Enter => b.push(13),
        KeyInput::Backspace => b.push(8),
        KeyInput::Tab => b.push(9),
        KeyInput::Esc => b.push(27),
        KeyInput::Up => {
            b.push(27);
            b.push(91);
            b.push(65);
        },
        KeyInput::Down => {
            b.push(27);
            b.push(91);
            b.push(66);
        },
        KeyInput::Right => {
            b.push(27);
            b.push(91);
            b.push(67);
        },
        KeyInput::Left => {
            b.push(27);
            b.push(91);
            b.push(68);
        },
        KeyInput::Other => {},
    }
    proof {
        assert(b@ =~= key_input_bytes(key));
    }
    b
}

} // verus!
