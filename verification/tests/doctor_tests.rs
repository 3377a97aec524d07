use ghost_core::doctor::{
    export_contents, export_markdown, format_history_table, format_stats_summary,
    render_doctor_output, DoctorCommand, DoctorOutcome, DoctorQuery,
};
use ghost_core::ipc_client::{
    CommandStat, DoctorStatsResponse, EngineCount, HistoryRecord, HistoryResponse, WorkspaceStat,
};

fn words(s: &str) -> Vec<Vec<char>> {
    s.split_whitespace().map(|w| w.chars().collect()).collect()
}

fn record(ts: &str, cmd: &str, code: i32, engine: Option<&str>, ws: Option<&str>, diag: &str, fix: &str) -> HistoryRecord {
    HistoryRecord {
        id: 1,
        timestamp: ts.to_string(),
        workspace: ws.map(|s| s.to_string()),
        command: cmd.to_string(),
        exit_code: code,
        diagnosis: diag.to_string(),
        suggested_fix: fix.to_string(),
        engine_source: engine.map(|s| s.to_string()),
    }
}

fn report_history() -> HistoryResponse {
    HistoryResponse {
        status: "ok".to_string(),
        count: 2,
        history: vec![
            record(
                "2026-08-18 09:42:53",
                "git checkout non_existent_branch_12345",
                128,
                Some("stub"),
                None,
                "Command 'git checkout non_existent_branch_12345' failed with exit code 128.",
                "ghost doctor",
            ),
            record(
                "2026-08-18 09:42:14",
                "cat definitely_missing_test.txt",
                1,
                Some("fast_path"),
                Some("/home/me/proj"),
                "Target file 'definitely_missing_test.txt' does not exist in the current directory.",
                "touch definitely_missing_test.txt",
            ),
        ],
    }
}

#[test]
fn parse_default() {
    assert_eq!(DoctorCommand::parse("ghost doctor"), DoctorCommand::Default { limit: 5 });
    assert_eq!(DoctorCommand::parse("ghost doctor --limit 20"), DoctorCommand::Default { limit: 20 });
    assert_eq!(DoctorCommand::parse("ghost doctor -n x"), DoctorCommand::Default { limit: 5 });
    assert_eq!(DoctorCommand::parse("ghost doctor -l"), DoctorCommand::Default { limit: 5 });
    assert_eq!(DoctorCommand::parse("ghost doctor -l +3"), DoctorCommand::Default { limit: 3 });
    assert_eq!(DoctorCommand::parse("ghost doctor -l -3"), DoctorCommand::Default { limit: 5 });
}

#[test]
fn parse_search() {
    assert_eq!(
        DoctorCommand::parse("ghost doctor --search \"npm\""),
        DoctorCommand::Search { query: "npm".to_string(), limit: 10 }
    );
    assert_eq!(
        DoctorCommand::parse("  ghost doctor -q 'git' -n 3 "),
        DoctorCommand::Search { query: "git".to_string(), limit: 3 }
    );
    // a search flag with nothing after it is ignored
    assert_eq!(DoctorCommand::parse("ghost doctor --search"), DoctorCommand::Default { limit: 5 });
}

#[test]
fn parse_stats_wins() {
    assert_eq!(DoctorCommand::parse("ghost doctor --stats"), DoctorCommand::Stats);
    assert_eq!(DoctorCommand::parse("ghost doctor --search npm -s"), DoctorCommand::Stats);
}

#[test]
fn parse_export() {
    assert_eq!(
        DoctorCommand::parse("ghost doctor --export markdown --out debug_report.md"),
        DoctorCommand::Export { format: "markdown".to_string(), out_path: "debug_report.md".to_string() }
    );
    assert_eq!(
        DoctorCommand::parse("ghost doctor -e JSON"),
        DoctorCommand::Export { format: "json".to_string(), out_path: "ghost_report.json".to_string() }
    );
    assert_eq!(
        DoctorCommand::parse("ghost doctor -e md -o"),
        DoctorCommand::Export { format: "md".to_string(), out_path: "ghost_report.md".to_string() }
    );
}

#[test]
fn extract_limit_reads_number_after_flag() {
    assert_eq!(DoctorCommand::extract_limit(&words("a --limit 7")), Some(7));
    assert_eq!(DoctorCommand::extract_limit(&words("a -n 99999999999999999999999")), None);
    assert_eq!(DoctorCommand::extract_limit(&words("a -n")), None);
    assert_eq!(DoctorCommand::extract_limit(&words("a b")), None);
}

#[test]
fn daemon_queries() {
    assert_eq!(DoctorCommand::Default { limit: 4 }.daemon_query(), DoctorQuery::History { limit: 4 });
    assert_eq!(DoctorCommand::Stats.daemon_query(), DoctorQuery::Stats);
    assert_eq!(
        DoctorCommand::Search { query: "q".to_string(), limit: 2 }.daemon_query(),
        DoctorQuery::Search { query: "q".to_string(), limit: 2 }
    );
    assert_eq!(
        DoctorCommand::Export { format: "json".to_string(), out_path: "x".to_string() }.daemon_query(),
        DoctorQuery::History { limit: 100 }
    );
}

#[test]
fn history_table_lists_records() {
    let h = report_history();
    let t = format_history_table(&h);
    assert_eq!(
        t,
        "\x1b[33m[2026-08-18 09:42:53]\x1b[0m \x1b[1mCommand:\x1b[0m git checkout non_existent_branch_12345 \x1b[90m(Exit: 128, Engine: stub, Workspace: global)\x1b[0m\r\n  \x1b[36mDiagnosis:\x1b[0m Command 'git checkout non_existent_branch_12345' failed with exit code 128.\r\n  \x1b[32mSuggested Fix:\x1b[0m ghost doctor\r\n\r\n\
\x1b[33m[2026-08-18 09:42:14]\x1b[0m \x1b[1mCommand:\x1b[0m cat definitely_missing_test.txt \x1b[90m(Exit: 1, Engine: fast_path, Workspace: /home/me/proj)\x1b[0m\r\n  \x1b[36mDiagnosis:\x1b[0m Target file 'definitely_missing_test.txt' does not exist in the current directory.\r\n  \x1b[32mSuggested Fix:\x1b[0m touch definitely_missing_test.txt\r\n\r\n"
    );
}

#[test]
fn empty_history_table() {
    let h = HistoryResponse { status: "ok".to_string(), count: 0, history: vec![] };
    assert_eq!(format_history_table(&h), "No intercepted failures found.\r\n");
}

#[test]
fn unknown_engine_and_negative_code() {
    let h = HistoryResponse {
        status: "ok".to_string(),
        count: 1,
        history: vec![record("t", "c", -1, None, Some("w"), "d", "f")],
    };
    assert_eq!(
        format_history_table(&h),
        "\x1b[33m[t]\x1b[0m \x1b[1mCommand:\x1b[0m c \x1b[90m(Exit: -1, Engine: unknown, Workspace: w)\x1b[0m\r\n  \x1b[36mDiagnosis:\x1b[0m d\r\n  \x1b[32mSuggested Fix:\x1b[0m f\r\n\r\n"
    );
}

#[test]
fn stats_summary_text() {
    let st = DoctorStatsResponse {
        total_failures: 12,
        top_failing_commands: vec![CommandStat { command: "npm test".to_string(), failure_count: 5 }],
        workspace_breakdown: vec![],
        engine_sources: vec![
            EngineCount { engine: "groq".to_string(), count: 7 },
            EngineCount { engine: "ollama".to_string(), count: 0 },
        ],
    };
    assert_eq!(
        format_stats_summary(&st),
        "\x1b[1mTotal Intercepted Failures:\x1b[0m 12\r\n\r\n\x1b[33;1mTop Failing Commands:\x1b[0m\r\n  - \x1b[1mnpm test\x1b[0m (5 failures)\r\n\r\n\x1b[34;1mWorkspace Failure Distribution:\x1b[0m\r\n  (None recorded)\r\n\r\n\x1b[36;1mAI Engine Invocations:\x1b[0m\r\n  - \x1b[1mgroq\x1b[0m: 7 calls\r\n  - \x1b[1mollama\x1b[0m: 0 calls\r\n\r\n"
    );
    let st2 = DoctorStatsResponse {
        total_failures: 0,
        top_failing_commands: vec![],
        workspace_breakdown: vec![WorkspaceStat { workspace: "/w".to_string(), failure_count: 3 }],
        engine_sources: vec![],
    };
    assert_eq!(
        format_stats_summary(&st2),
        "\x1b[1mTotal Intercepted Failures:\x1b[0m 0\r\n\r\n\x1b[33;1mTop Failing Commands:\x1b[0m\r\n  (None recorded)\r\n\r\n\x1b[34;1mWorkspace Failure Distribution:\x1b[0m\r\n  - \x1b[90m/w\x1b[0m: 3 failures\r\n\r\n\x1b[36;1mAI Engine Invocations:\x1b[0m\r\n\r\n"
    );
}

#[test]
fn markdown_report_matches_sample() {
    let expected = "# \u{1F47B} Ghost in the Shell \u{2014} Audit Report\n\nTotal Records: 2\n\n| Timestamp | Command | Exit Code | Engine | Diagnosis | Fix |\n|---|---|---|---|---|---|\n| 2026-08-18 09:42:53 | `git checkout non_existent_branch_12345` | 128 | stub | Command 'git checkout non_existent_branch_12345' failed with exit code 128. | `ghost doctor` |\n| 2026-08-18 09:42:14 | `cat definitely_missing_test.txt` | 1 | fast_path | Target file 'definitely_missing_test.txt' does not exist in the current directory. | `touch definitely_missing_test.txt` |\n";
    assert_eq!(export_markdown(&report_history()), expected);
}

#[test]
fn markdown_escapes_pipes() {
    let h = HistoryResponse {
        status: "ok".to_string(),
        count: 1,
        history: vec![record("t", "ps | grep x", 1, None, None, "a|b", "c || d")],
    };
    let md = export_markdown(&h);
    assert!(md.ends_with("| t | `ps \\| grep x` | 1 | unknown | a\\|b | `c \\|\\| d` |\n"));
}

#[test]
fn export_contents_by_format() {
    let h = report_history();
    assert_eq!(export_contents("json", &h), None);
    assert_eq!(export_contents("markdown", &h), Some(export_markdown(&h)));
    assert_eq!(export_contents("md", &h), Some(export_markdown(&h)));
}

#[test]
fn doctor_output_texts() {
    let default_cmd = DoctorCommand::Default { limit: 5 };
    assert_eq!(
        render_doctor_output(&default_cmd, &DoctorOutcome::Unreachable),
        "\r\n\x1b[35;1m=== Ghost Doctor: Recent Interceptions ===\x1b[0m\r\n\x1b[31mFailed to connect to ghost_daemon at http://127.0.0.1:8000\x1b[0m\r\n"
    );
    let empty = HistoryResponse { status: "ok".to_string(), count: 0, history: vec![] };
    assert_eq!(
        render_doctor_output(&default_cmd, &DoctorOutcome::History(empty)),
        "\r\n\x1b[35;1m=== Ghost Doctor: Recent Interceptions ===\x1b[0m\r\nNo intercepted failures found.\r\n"
    );
    let search = DoctorCommand::Search { query: "npm".to_string(), limit: 10 };
    let empty2 = HistoryResponse { status: "ok".to_string(), count: 0, history: vec![] };
    assert_eq!(
        render_doctor_output(&search, &DoctorOutcome::History(empty2)),
        "\r\n\x1b[35;1m=== Ghost Doctor: Search Results for 'npm' ===\x1b[0m\r\nNo historical failures matched 'npm'.\r\n"
    );
    assert_eq!(
        render_doctor_output(&search, &DoctorOutcome::Unreachable),
        "\r\n\x1b[35;1m=== Ghost Doctor: Search Results for 'npm' ===\x1b[0m\r\n\x1b[31mFailed to reach ghost_daemon search endpoint.\x1b[0m\r\n"
    );
    assert_eq!(
        render_doctor_output(&DoctorCommand::Stats, &DoctorOutcome::Unreachable),
        "\r\n\x1b[35;1m=== Ghost Doctor: Diagnostic Analytics ===\x1b[0m\r\n\x1b[31mFailed to reach ghost_daemon stats endpoint.\x1b[0m\r\n"
    );
    let export = DoctorCommand::Export { format: "markdown".to_string(), out_path: "r.md".to_string() };
    assert_eq!(
        render_doctor_output(&export, &DoctorOutcome::Exported),
        "\r\n\x1b[35;1m=== Ghost Doctor: Export Report ===\x1b[0m\r\n\x1b[32mSuccessfully exported report to 'r.md'\x1b[0m\r\n"
    );
    assert_eq!(
        render_doctor_output(&export, &DoctorOutcome::ExportFailed("denied".to_string())),
        "\r\n\x1b[35;1m=== Ghost Doctor: Export Report ===\x1b[0m\r\n\x1b[31mFailed to write export file: denied\x1b[0m\r\n"
    );
    assert_eq!(
        render_doctor_output(&export, &DoctorOutcome::Unreachable),
        "\r\n\x1b[35;1m=== Ghost Doctor: Export Report ===\x1b[0m\r\n\x1b[31mFailed to retrieve history for report generation.\x1b[0m\r\n"
    );
}

#[test]
fn doctor_output_with_history() {
    let h = report_history();
    let table = format_history_table(&h);
    let out = render_doctor_output(&DoctorCommand::Default { limit: 5 }, &DoctorOutcome::History(h));
    assert_eq!(out, format!("\r\n\x1b[35;1m=== Ghost Doctor: Recent Interceptions ===\x1b[0m\r\n{}", table));
}

#[test]
fn parse_search_keeps_quoted_query() {
    assert_eq!(
        DoctorCommand::parse("ghost doctor --search \"npm install\""),
        DoctorCommand::Search { query: "npm install".to_string(), limit: 10 }
    );
    assert_eq!(
        DoctorCommand::parse("ghost doctor -q 'cannot   find module' -n 2"),
        DoctorCommand::Search { query: "cannot find module".to_string(), limit: 2 }
    );
    assert_eq!(
        DoctorCommand::parse("ghost doctor --search \"unterminated query"),
        DoctorCommand::Search { query: "unterminated".to_string(), limit: 10 }
    );
    assert_eq!(
        DoctorCommand::parse("ghost doctor --search \"npm -n 3"),
        DoctorCommand::Search { query: "npm".to_string(), limit: 3 }
    );
    assert_eq!(
        DoctorCommand::parse("ghost doctor --search plain words"),
        DoctorCommand::Search { query: "plain".to_string(), limit: 10 }
    );
}

#[test]
fn engine_distinctness_check() {
    let mut st = DoctorStatsResponse {
        total_failures: 0,
        top_failing_commands: vec![],
        workspace_breakdown: vec![],
        engine_sources: vec![
            EngineCount { engine: "groq".to_string(), count: 1 },
            EngineCount { engine: "ollama".to_string(), count: 2 },
        ],
    };
    assert!(st.engines_are_distinct());
    st.engine_sources.push(EngineCount { engine: "groq".to_string(), count: 3 });
    assert!(!st.engines_are_distinct());
}

#[test]
fn stats_summary_lists_every_entry_in_order() {
    let st = DoctorStatsResponse {
        total_failures: 9,
        top_failing_commands: vec![
            CommandStat { command: "cargo build".to_string(), failure_count: 4 },
            CommandStat { command: "npm test".to_string(), failure_count: 2 },
        ],
        workspace_breakdown: vec![
            WorkspaceStat { workspace: "/a".to_string(), failure_count: 5 },
            WorkspaceStat { workspace: "/b".to_string(), failure_count: 1 },
        ],
        engine_sources: vec![EngineCount { engine: "groq".to_string(), count: 3 }],
    };
    let out = format_stats_summary(&st);
    assert!(!out.contains("(None recorded)"));
    let lines = [
        "  - \x1b[1mcargo build\x1b[0m (4 failures)\r\n",
        "  - \x1b[1mnpm test\x1b[0m (2 failures)\r\n",
        "  - \x1b[90m/a\x1b[0m: 5 failures\r\n",
        "  - \x1b[90m/b\x1b[0m: 1 failures\r\n",
        "  - \x1b[1mgroq\x1b[0m: 3 calls\r\n",
    ];
    let mut at = 0;
    for l in lines.iter() {
        let p = out[at..].find(l).expect("line missing") + at;
        at = p + l.len();
    }
    assert_eq!(&out[at..], "\r\n");
}
