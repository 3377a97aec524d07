use ghost_core::safety::{classify_lowered, evaluate_risk, RiskLevel};

#[test]
fn safe_commands() {
    assert_eq!(evaluate_risk("touch non_existent_file.txt"), RiskLevel::Safe);
    assert_eq!(evaluate_risk("mkdir -p build"), RiskLevel::Safe);
    assert_eq!(evaluate_risk("npm install"), RiskLevel::Safe);
    assert_eq!(evaluate_risk(""), RiskLevel::Safe);
}

#[test]
fn high_risk_commands() {
    assert_eq!(evaluate_risk("rm -rf node_modules"), RiskLevel::HighRisk);
    assert_eq!(evaluate_risk("git reset --hard HEAD~1"), RiskLevel::HighRisk);
    assert_eq!(evaluate_risk("psql -c 'DROP TABLE users'"), RiskLevel::HighRisk);
    assert_eq!(evaluate_risk("git push --force origin main"), RiskLevel::HighRisk);
    assert_eq!(evaluate_risk("kill -9 1234"), RiskLevel::HighRisk);
    assert_eq!(evaluate_risk("CHMOD -R 777 ."), RiskLevel::HighRisk);
    assert_eq!(evaluate_risk("git branch -D feature"), RiskLevel::HighRisk);
}

#[test]
fn critical_commands() {
    assert_eq!(evaluate_risk("rm -rf /"), RiskLevel::Critical);
    assert_eq!(evaluate_risk("sudo rm -rf ~"), RiskLevel::Critical);
    assert_eq!(evaluate_risk("mkfs.ext4 /dev/sda1"), RiskLevel::Critical);
    assert_eq!(evaluate_risk("dd if=/dev/zero of=/dev/sda"), RiskLevel::Critical);
    assert_eq!(evaluate_risk("dd bs=1M of=/dev/nvme0n1"), RiskLevel::Critical);
    assert_eq!(evaluate_risk(":(){ :|:& };:"), RiskLevel::Critical);
    assert_eq!(evaluate_risk("RM -RF $HOME"), RiskLevel::Critical);
    assert_eq!(evaluate_risk("echo x > /dev/sdb"), RiskLevel::Critical);
}

#[test]
fn trimming_and_case_do_not_matter() {
    assert_eq!(evaluate_risk("   Git Reset --HARD  "), RiskLevel::HighRisk);
    assert_eq!(evaluate_risk("\t\u{3000}rm -rf /root\n"), RiskLevel::Critical);
}

#[test]
fn classify_takes_lowered_text() {
    assert_eq!(classify_lowered("drop database prod"), RiskLevel::HighRisk);
    // upper case is not lowered here
    assert_eq!(classify_lowered("DROP DATABASE prod"), RiskLevel::Safe);
    assert_eq!(classify_lowered("git branch -D x"), RiskLevel::HighRisk);
}

#[test]
fn appending_text_never_lowers_risk() {
    assert_eq!(evaluate_risk("rm -rf / ; echo done"), RiskLevel::Critical);
    assert_eq!(evaluate_risk("rm -r build && echo ok"), RiskLevel::HighRisk);
    assert_eq!(classify_lowered("ls"), RiskLevel::Safe);
    assert_eq!(classify_lowered("ls; rmdir x"), RiskLevel::HighRisk);
}

#[test]
fn surrounding_text_and_case_keep_the_risk() {
    assert_eq!(evaluate_risk("cd / && rm -rf / ; echo done"), RiskLevel::Critical);
    assert_eq!(evaluate_risk("echo start; GIT PUSH --FORCE; echo end"), RiskLevel::HighRisk);
    assert_eq!(evaluate_risk("  \t npm install \n"), evaluate_risk("NPM INSTALL"));
    assert_eq!(evaluate_risk("Kill -9 1"), evaluate_risk("kill -9 1"));
}
