use ghost_core::pty::{detect_active_shell, ShellEnv, ShellKind};

fn env() -> ShellEnv {
    ShellEnv {
        target_shell: None,
        windows: false,
        msys: false,
        shell: None,
        git_bash_exists: false,
        ps_module_path: false,
        pwsh_in_path: false,
        powershell_in_path: false,
        comspec: None,
        zsh_in_path: false,
        bash_in_path: false,
    }
}

#[test]
fn requested_shell_is_used() {
    let mut e = env();
    e.target_shell = Some("/usr/local/bin/ZSH".to_string());
    assert_eq!(detect_active_shell(&e), ("/usr/local/bin/ZSH".to_string(), ShellKind::Zsh));
    e.target_shell = Some("C:\\pwsh.exe".to_string());
    assert_eq!(detect_active_shell(&e), ("C:\\pwsh.exe".to_string(), ShellKind::PowerShell));
    e.target_shell = Some("cmd".to_string());
    assert_eq!(detect_active_shell(&e), ("cmd".to_string(), ShellKind::Cmd));
    // an unrecognised request falls back to detection
    e.target_shell = Some("fish".to_string());
    e.shell = Some("/bin/bash".to_string());
    assert_eq!(detect_active_shell(&e), ("/bin/bash".to_string(), ShellKind::Bash));
}

#[test]
fn posix_detection() {
    let mut e = env();
    e.shell = Some("/usr/bin/zsh".to_string());
    assert_eq!(detect_active_shell(&e), ("/usr/bin/zsh".to_string(), ShellKind::Zsh));
    e.shell = Some("/usr/bin/fish".to_string());
    assert_eq!(detect_active_shell(&e), ("/usr/bin/fish".to_string(), ShellKind::GenericPosix));
    e.shell = None;
    e.bash_in_path = true;
    assert_eq!(detect_active_shell(&e), ("bash".to_string(), ShellKind::Bash));
    e.zsh_in_path = true;
    assert_eq!(detect_active_shell(&e), ("zsh".to_string(), ShellKind::Zsh));
    let e2 = env();
    assert_eq!(detect_active_shell(&e2), ("/bin/sh".to_string(), ShellKind::GenericPosix));
}

#[test]
fn windows_detection() {
    let mut e = env();
    e.windows = true;
    assert_eq!(detect_active_shell(&e), ("cmd.exe".to_string(), ShellKind::Cmd));
    e.comspec = Some("C:\\Windows\\system32\\cmd.exe".to_string());
    assert_eq!(detect_active_shell(&e), ("C:\\Windows\\system32\\cmd.exe".to_string(), ShellKind::Cmd));
    e.ps_module_path = true;
    e.powershell_in_path = true;
    assert_eq!(detect_active_shell(&e), ("powershell.exe".to_string(), ShellKind::PowerShell));
    e.pwsh_in_path = true;
    assert_eq!(detect_active_shell(&e), ("pwsh.exe".to_string(), ShellKind::PowerShell));
    e.msys = true;
    e.git_bash_exists = true;
    assert_eq!(
        detect_active_shell(&e),
        ("C:\\Program Files\\Git\\bin\\bash.exe".to_string(), ShellKind::Bash)
    );
    e.shell = Some("/usr/bin/bash".to_string());
    assert_eq!(detect_active_shell(&e), ("/usr/bin/bash".to_string(), ShellKind::Bash));
}

#[test]
fn alias_payloads() {
    let posix = "alias ghost=':' f=':' fix=':' y=':' yes=':' Y=':' YES=':' n=':' no=':' N=':' NO=':' confirm=':' CONFIRM=':' 2>/dev/null; PROMPT_COMMAND='printf \"\\033]1337;GhostExit=%d\\007\" \"$?\"'; clear\r";
    assert_eq!(ShellKind::Bash.alias_init_payload(), Some(posix));
    assert_eq!(ShellKind::Zsh.alias_init_payload(), Some(posix));
    assert_eq!(ShellKind::GenericPosix.alias_init_payload(), Some(posix));
    assert_eq!(ShellKind::Cmd.alias_init_payload(), None);
    let ps = ShellKind::PowerShell.alias_init_payload().unwrap();
    assert!(ps.starts_with("$oldPrompt = $function:prompt;"));
    assert!(ps.contains("[Console]::Write(\"`e]1337;GhostExit=$code`a\")"));
    assert!(ps.ends_with("Clear-Host\r"));
}

#[test]
fn prompt_commands() {
    let hook = "printf \"\\033]1337;GhostExit=%d\\007\" \"$?\"";
    assert_eq!(ShellKind::Bash.prompt_command(), Some(hook));
    assert_eq!(ShellKind::Zsh.prompt_command(), Some(hook));
    assert_eq!(ShellKind::GenericPosix.prompt_command(), Some(hook));
    assert_eq!(ShellKind::PowerShell.prompt_command(), None);
    assert_eq!(ShellKind::Cmd.prompt_command(), None);
}
