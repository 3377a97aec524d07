//! Which shell to run, and what to send it so that it reports its exit
//! codes through the boundary marker.

use vstd::prelude::*;

use crate::text::{chars_occur_at, chars_of, contains_seq, contains_str, occurs_at, to_lowercase, unicode_lowercase};

verus! {

broadcast use vstd::seq::group_seq_axioms;

/// The kinds of shell told apart.
#[derive(Debug, Clone, Copy, PartialEq, Eq)]
pub enum ShellKind {
    Bash,
    Zsh,
    PowerShell,
    Cmd,
    GenericPosix,
}

/// What shell detection looks at: environment variables, the platform, and
/// which programs can be found.
#[derive(Debug)]
pub struct ShellEnv {
    /// `GHOST_TARGET_SHELL`, when set.
    pub target_shell: Option<String>,
    /// Running on Windows.
    pub windows: bool,
    /// `MSYSTEM` or `MINGW_PREFIX` is set.
    pub msys: bool,
    /// `SHELL`, when set.
    pub shell: Option<String>,
    /// Git for Windows' bash is installed at its usual place.
    pub git_bash_exists: bool,
    /// `PSModulePath` is set.
    pub ps_module_path: bool,
    /// `pwsh.exe` is on the `PATH`.
    pub pwsh_in_path: bool,
    /// `powershell.exe` is on the `PATH`.
    pub powershell_in_path: bool,
    /// `COMSPEC`, when set.
    pub comspec: Option<String>,
    /// `zsh` is on the `PATH`.
    pub zsh_in_path: bool,
    /// `bash` is on the `PATH`.
    pub bash_in_path: bool,
}

pub open spec fn ends_with_seq(s: Seq<char>, suffix: Seq<char>) -> bool {
    occurs_at(s, suffix, s.len() - suffix.len())
}

/// The kind a requested shell names, judged by its lower-cased name.
pub open spec fn requested_kind(lower: Seq<char>) -> Option<ShellKind> {
    if contains_seq(lower, "zsh"@) {
        Some(ShellKind::Zsh)
    } else if contains_seq(lower, "pwsh"@) || contains_seq(lower, "powershell"@) {
        Some(ShellKind::PowerShell)
    } else if contains_seq(lower, "bash"@) {
        Some(ShellKind::Bash)
    } else if contains_seq(lower, "cmd"@) {
        Some(ShellKind::Cmd)
    } else {
        None
    }
}

/// The shell chosen on Windows.
pub open spec fn windows_shell(env: ShellEnv) -> (Seq<char>, ShellKind) {
    if env.msys && env.shell is Some {
        (env.shell->0@, ShellKind::Bash)
    } else if env.msys && env.git_bash_exists {
        ("C:\\Program Files\\Git\\bin\\bash.exe"@, ShellKind::Bash)
    } else if env.ps_module_path && env.pwsh_in_path {
        ("pwsh.exe"@, ShellKind::PowerShell)
    } else if env.ps_module_path && env.powershell_in_path {
        ("powershell.exe"@, ShellKind::PowerShell)
    } else {
        (
            match env.comspec {
                Some(c) => c@,
                None => "cmd.exe"@,
            },
            ShellKind::Cmd,
        )
    }
}

/// The shell chosen elsewhere.
pub open spec fn posix_shell(env: ShellEnv) -> (Seq<char>, ShellKind) {
    match env.shell {
        Some(s) => if ends_with_seq(s@, "/zsh"@) {
            (s@, ShellKind::Zsh)
        } else if ends_with_seq(s@, "/bash"@) {
            (s@, ShellKind::Bash)
        } else {
            (s@, ShellKind::GenericPosix)
        },
        None => if env.zsh_in_path {
            ("zsh"@, ShellKind::Zsh)
        } else if env.bash_in_path {
            ("bash"@, ShellKind::Bash)
        } else {
            ("/bin/sh"@, ShellKind::GenericPosix)
        },
    }
}

/// The shell to run: the requested one when its name says what it is,
/// otherwise the platform's choice.
pub open spec fn chosen_shell(env: ShellEnv, requested_lower: Option<Seq<char>>) -> (
    Seq<char>,
    ShellKind,
) {
    if env.target_shell is Some && requested_lower is Some && requested_kind(requested_lower->0) is Some {
        (env.target_shell->0@, requested_kind(requested_lower->0)->0)
    } else if env.windows {
        windows_shell(env)
    } else {
        posix_shell(env)
    }
}

/// The program and kind of shell to run.
pub fn detect_active_shell(env: &ShellEnv) -> (r: (String, ShellKind))
    ensures
        (r.0@, r.1) == chosen_shell(
            *env,
            match env.target_shell {
                Some(t) => Some(unicode_lowercase(t@)),
                None => None,
            },
        ),
{
    match &env.target_shell {
        Some(target) => {
            let lower = to_lowercase(target.as_str());
            let lc = chars_of(lower.as_str());
            let kind = if contains_str(&lc, "zsh") {
                Some(ShellKind::Zsh)
            } else if contains_str(&lc, "pwsh") || contains_str(&lc, "powershell") {
                Some(ShellKind::PowerShell)
            } else if contains_str(&lc, "bash") {
                Some(ShellKind::Bash)
            } else if contains_str(&lc, "cmd") {
                Some(ShellKind::Cmd)
            } else {
                None
            };
            if let Some(k) = kind {
                return (target.clone(), k);
            }
        },
        None => {},
    }
    if env.windows {
        if env.msys {
            if let Some(shell) = &env.shell {
                return (shell.clone(), ShellKind::Bash);
            }
            if env.git_bash_exists {
                return (String::from_str("C:\\Program Files\\Git\\bin\\bash.exe"), ShellKind::Bash);
            }
        }
        if env.ps_module_path {
            if env.pwsh_in_path {
                return (String::from_str("pwsh.exe"), ShellKind::PowerShell);
            }
            if env.powershell_in_path {
                return (String::from_str("powershell.exe"), ShellKind::PowerShell);
            }
        }
        let comspec = match &env.comspec {
            Some(c) => c.clone(),
            None => String::from_str("cmd.exe"),
        };
        return (comspec, ShellKind::Cmd);
    }
    if let Some(shell_var) = &env.shell {
        let sc = chars_of(shell_var.as_str());
        if ends_with_str(&sc, "/zsh") {
            return (shell_var.clone(), ShellKind::Zsh);
        } else if ends_with_str(&sc, "/bash") {
            return (shell_var.clone(), ShellKind::Bash);
        } else {
            return (shell_var.clone(), ShellKind::GenericPosix);
        }
    }
    if env.zsh_in_path {
        (String::from_str("zsh"), ShellKind::Zsh)
    } else if env.bash_in_path {
        (String::from_str("bash"), ShellKind::Bash)
    } else {
        (String::from_str("/bin/sh"), ShellKind::GenericPosix)
    }
}

fn ends_with_str(s: &Vec<char>, suffix: &str) -> (r: bool)
    ensures
        r == ends_with_seq(s@, suffix@),
{
    let x = chars_of(suffix);
    if x.len() > s.len() {
        return false;
    }
    let start: usize = s.len() - x.len();
    chars_occur_at(s, &x, start)
}

/// The hook that makes a POSIX shell print the boundary marker after each
/// command.
pub open spec fn posix_prompt_hook() -> Seq<char> {
    "printf \"\\033]1337;GhostExit=%d\\007\" \"$?\""@
}

/// The line that sets up aliases and the marker hook in the shell.
pub open spec fn alias_payload(kind: ShellKind) -> Option<Seq<char>> {
    match kind {
        ShellKind::Bash | ShellKind::Zsh | ShellKind::GenericPosix => Some(
            "alias ghost=':' f=':' fix=':' y=':' yes=':' Y=':' YES=':' n=':' no=':' N=':' NO=':' confirm=':' CONFIRM=':' 2>/dev/null; PROMPT_COMMAND='printf \"\\033]1337;GhostExit=%d\\007\" \"$?\"'; clear\r"@,
        ),
        ShellKind::PowerShell => Some(
            "$oldPrompt = $function:prompt; function prompt { $code = if ($LASTEXITCODE -ne $null) { $LASTEXITCODE } else { 0 }; [Console]::Write(\"`e]1337;GhostExit=$code`a\"); if ($oldPrompt) { & $oldPrompt } else { 'PS ' + (Get-Location) + '> ' } }; function global:ghost {}; function global:f {}; function global:fix {}; function global:y {}; function global:yes {}; function global:n {}; function global:no {}; function global:confirm {}; Clear-Host\r"@,
        ),
        ShellKind::Cmd => None,
    }
}

impl ShellKind {
    /// The `PROMPT_COMMAND` value that reports exit codes, for the shells
    /// that read it.
    pub fn prompt_command(self) -> (r: Option<&'static str>)
        ensures
            match r {
                Some(s) => (self == ShellKind::Bash || self == ShellKind::Zsh || self
                    == ShellKind::GenericPosix) && s@ == posix_prompt_hook(),
                None => self == ShellKind::PowerShell || self == ShellKind::Cmd,
            },
    {
        match self {
            ShellKind::Bash | ShellKind::Zsh | ShellKind::GenericPosix => Some(
                "printf \"\\033]1337;GhostExit=%d\\007\" \"$?\"",
            ),
            _ => None,
        }
    }

    /// The line that sets up aliases for the trigger words and the marker
    /// hook, for the shells that take one.
    pub fn alias_init_payload(self) -> (r: Option<&'static str>)
        ensures
            match r {
                Some(s) => alias_payload(self) == Some(s@),
                None => alias_payload(self) is None,
            },
    {
        match self {
            ShellKind::Bash | ShellKind::Zsh | ShellKind::GenericPosix => Some(
                "alias ghost=':' f=':' fix=':' y=':' yes=':' Y=':' YES=':' n=':' no=':' N=':' NO=':' confirm=':' CONFIRM=':' 2>/dev/null; PROMPT_COMMAND='printf \"\\033]1337;GhostExit=%d\\007\" \"$?\"'; clear\r",
            ),
            ShellKind::PowerShell => Some(
                "$oldPrompt = $function:prompt; function prompt { $code = if ($LASTEXITCODE -ne $null) { $LASTEXITCODE } else { 0 }; [Console]::Write(\"`e]1337;GhostExit=$code`a\"); if ($oldPrompt) { & $oldPrompt } else { 'PS ' + (Get-Location) + '> ' } }; function global:ghost {}; function global:f {}; function global:fix {}; function global:y {}; function global:yes {}; function global:n {}; function global:no {}; function global:confirm {}; Clear-Host\r",
            ),
            ShellKind::Cmd => None,
        }
    }
}

} // verus!
