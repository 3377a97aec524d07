use ghost_core::safety::RiskLevel;
use ghost_core::session::{
    action_message, diagnosis_message, key_bytes, GhostSession, KeyInput, SessionAction,
};

#[test]
fn failure_asks_for_diagnosis() {
    let mut s = GhostSession::new();
    assert_eq!(
        s.on_command_finished("cat missing.txt", 1),
        SessionAction::Diagnose { command: "cat missing.txt".to_string(), exit_code: 1 }
    );
    assert_eq!(s.on_command_finished("ls", 0), SessionAction::Nothing);
}

#[test]
fn safe_fix_runs_after_yes() {
    let mut s = GhostSession::new();
    s.on_diagnosis("touch non_existent_file.txt".to_string());
    assert_eq!(
        s.on_command_finished("f", 0),
        SessionAction::PromptFix { fix: "touch non_existent_file.txt".to_string(), risk: RiskLevel::Safe }
    );
    assert_eq!(
        s.on_command_finished("y", 127),
        SessionAction::ExecuteFix { fix: "touch non_existent_file.txt".to_string() }
    );
    // the suggestion was used up
    assert_eq!(s.on_command_finished("fix", 0), SessionAction::NoPendingFix);
}

#[test]
fn safe_fix_answers() {
    let mut s = GhostSession::new();
    s.on_diagnosis("mkdir build".to_string());
    s.on_command_finished(" FIX ", 0);
    assert_eq!(
        s.on_command_finished("Yes!", 0),
        SessionAction::ExecuteFix { fix: "mkdir build".to_string() }
    );
    s.on_diagnosis("mkdir build".to_string());
    s.on_command_finished("f", 0);
    assert_eq!(s.on_command_finished("n", 0), SessionAction::CancelFix);
    // the answer was consumed: the next command is an ordinary one again
    assert_eq!(s.on_command_finished("y", 0), SessionAction::Nothing);
}

#[test]
fn high_risk_fix_needs_confirm() {
    let mut s = GhostSession::new();
    s.on_diagnosis("git reset --hard HEAD~1".to_string());
    assert_eq!(
        s.on_command_finished("fix", 0),
        SessionAction::PromptFix { fix: "git reset --hard HEAD~1".to_string(), risk: RiskLevel::HighRisk }
    );
    assert_eq!(s.on_command_finished("yes", 0), SessionAction::CancelFix);

    s.on_diagnosis("git reset --hard HEAD~1".to_string());
    s.on_command_finished("fix", 0);
    assert_eq!(
        s.on_command_finished("CONFIRM", 127),
        SessionAction::ExecuteFix { fix: "git reset --hard HEAD~1".to_string() }
    );
}

#[test]
fn critical_fix_is_blocked() {
    let mut s = GhostSession::new();
    s.on_diagnosis("rm -rf /".to_string());
    assert_eq!(s.on_command_finished("f", 0), SessionAction::BlockFix { fix: "rm -rf /".to_string() });
    assert_eq!(s.on_command_finished("y", 0), SessionAction::Nothing);
    assert_eq!(s.on_command_finished("CONFIRM", 0), SessionAction::Nothing);
}

#[test]
fn doctor_command_is_routed() {
    let mut s = GhostSession::new();
    assert_eq!(
        s.on_command_finished("Ghost Doctor --stats", 127),
        SessionAction::RunDoctor { command: "Ghost Doctor --stats".to_string() }
    );
}

#[test]
fn step_with_normalised_answer() {
    let mut s = GhostSession::new();
    assert_eq!(s.step("F", "f", "f", "F", 0), SessionAction::NoPendingFix);
    assert_eq!(
        s.step("x", "x", "x", "x", 2),
        SessionAction::Diagnose { command: "x".to_string(), exit_code: 2 }
    );
}

#[test]
fn messages() {
    assert_eq!(
        action_message(&SessionAction::ExecuteFix { fix: "ls".to_string() }),
        "\r\n\x1b[32m[Ghost Executing Fix]: ls\x1b[0m\r\n"
    );
    assert_eq!(
        action_message(&SessionAction::PromptFix { fix: "ls".to_string(), risk: RiskLevel::Safe }),
        "\r\n\x1b[33m[Ghost]: Execute fix 'ls'? [y/N]: \x1b[0m"
    );
    assert_eq!(
        action_message(&SessionAction::PromptFix { fix: "rm -r x".to_string(), risk: RiskLevel::HighRisk }),
        "\r\n\x1b[31m[Ghost Safety Warning]: Command contains destructive/state-altering flags!\x1b[0m\r\n\x1b[33m[Ghost]: Execute fix 'rm -r x'? Type 'CONFIRM' to run: \x1b[0m"
    );
    assert_eq!(
        action_message(&SessionAction::Diagnose { command: "x".to_string(), exit_code: -2 }),
        "\r\n\x1b[33m[Ghost Intercepted Failure: Exit Code -2]\x1b[0m\r\n"
    );
    assert_eq!(action_message(&SessionAction::CancelFix), "\r\n\x1b[31m[Ghost]: Fix execution canceled.\x1b[0m\r\n");
    assert_eq!(action_message(&SessionAction::NoPendingFix), "\r\n\x1b[33m[Ghost]: No pending fix available.\x1b[0m\r\n");
    assert_eq!(action_message(&SessionAction::Nothing), "");
    assert!(action_message(&SessionAction::BlockFix { fix: "mkfs /dev/sda".to_string() }).contains("'mkfs /dev/sda'"));
    assert_eq!(
        diagnosis_message("no file", "touch a"),
        "\x1b[36m[Ghost Diagnosis]: no file\x1b[0m\r\n\x1b[32m[Suggested Fix]: touch a\x1b[0m\r\n\x1b[33m[Type 'fix' or 'f' to auto-execute this fix]\x1b[0m\r\n"
    );
}

#[test]
fn keys_to_bytes() {
    assert_eq!(key_bytes(KeyInput::Char { c: 'a', ctrl: false }), vec![b'a']);
    assert_eq!(key_bytes(KeyInput::Char { c: 'é', ctrl: false }), vec![0xc3, 0xa9]);
    assert_eq!(key_bytes(KeyInput::Char { c: '€', ctrl: false }), vec![0xe2, 0x82, 0xac]);
    assert_eq!(key_bytes(KeyInput::Char { c: 'C', ctrl: true }), vec![3]);
    assert_eq!(key_bytes(KeyInput::Char { c: 'd', ctrl: true }), vec![4]);
    assert_eq!(key_bytes(KeyInput::Char { c: 'z', ctrl: true }), vec![26]);
    assert_eq!(key_bytes(KeyInput::Char { c: 'L', ctrl: true }), vec![12]);
    assert_eq!(key_bytes(KeyInput::Char { c: 'x', ctrl: true }), Vec::<u8>::new());
    assert_eq!(key_bytes(KeyInput::Enter), vec![13]);
    assert_eq!(key_bytes(KeyInput::Backspace), vec![8]);
    assert_eq!(key_bytes(KeyInput::Tab), vec![9]);
    assert_eq!(key_bytes(KeyInput::Esc), vec![27]);
    assert_eq!(key_bytes(KeyInput::Up), b"\x1b[A".to_vec());
    assert_eq!(key_bytes(KeyInput::Down), b"\x1b[B".to_vec());
    assert_eq!(key_bytes(KeyInput::Right), b"\x1b[C".to_vec());
    assert_eq!(key_bytes(KeyInput::Left), b"\x1b[D".to_vec());
    assert_eq!(key_bytes(KeyInput::Other), Vec::<u8>::new());
}
