use ghost_core::boundary::{BoundaryParser, CommandStatus};

#[test]
fn marker_reports_exit_code() {
    let mut p = BoundaryParser::new();
    assert_eq!(
        p.parse_bytes(b"ls: cannot access\r\n\x1b]1337;GhostExit=2\x07"),
        CommandStatus::Finished { exit_code: 2 }
    );
}

#[test]
fn plain_output_keeps_running() {
    let mut p = BoundaryParser::new();
    assert_eq!(p.parse_bytes(b"hello world\r\n"), CommandStatus::Running);
    assert_eq!(p.parse_bytes(b"$ "), CommandStatus::Running);
}

#[test]
fn marker_split_across_chunks() {
    let mut p = BoundaryParser::new();
    assert_eq!(p.parse_bytes(b"out\x1b]1337;Ghost"), CommandStatus::Running);
    assert_eq!(p.parse_bytes(b"Exit=12"), CommandStatus::Running);
    assert_eq!(p.parse_bytes(b"7\x07$ "), CommandStatus::Finished { exit_code: 127 });
}

#[test]
fn buffer_is_cleared_after_marker() {
    let mut p = BoundaryParser::new();
    assert_eq!(
        p.parse_bytes(b"\x1b]1337;GhostExit=1\x07"),
        CommandStatus::Finished { exit_code: 1 }
    );
    // the old marker is gone: a lone BEL does not finish anything
    assert_eq!(p.parse_bytes(b"\x07"), CommandStatus::Running);
    assert_eq!(
        p.parse_bytes(b"\x1b]1337;GhostExit=0\x07"),
        CommandStatus::Finished { exit_code: 0 }
    );
}

#[test]
fn unparsable_code_reads_as_zero() {
    let mut p = BoundaryParser::new();
    assert_eq!(
        p.parse_bytes(b"\x1b]1337;GhostExit=abc\x07"),
        CommandStatus::Finished { exit_code: 0 }
    );
    assert_eq!(
        p.parse_bytes(b"\x1b]1337;GhostExit=\x07"),
        CommandStatus::Finished { exit_code: 0 }
    );
    assert_eq!(
        p.parse_bytes(b"\x1b]1337;GhostExit=99999999999\x07"),
        CommandStatus::Finished { exit_code: 0 }
    );
    assert_eq!(
        p.parse_bytes(b"\x1b]1337;GhostExit=-\x07"),
        CommandStatus::Finished { exit_code: 0 }
    );
}

#[test]
fn signed_codes_parse_like_i32() {
    let mut p = BoundaryParser::new();
    assert_eq!(
        p.parse_bytes(b"\x1b]1337;GhostExit=-5\x07"),
        CommandStatus::Finished { exit_code: -5 }
    );
    assert_eq!(
        p.parse_bytes(b"\x1b]1337;GhostExit=+7\x07"),
        CommandStatus::Finished { exit_code: 7 }
    );
    assert_eq!(
        p.parse_bytes(b"\x1b]1337;GhostExit=2147483647\x07"),
        CommandStatus::Finished { exit_code: 2147483647 }
    );
    assert_eq!(
        p.parse_bytes(b"\x1b]1337;GhostExit=-2147483648\x07"),
        CommandStatus::Finished { exit_code: -2147483648 }
    );
    assert_eq!(
        p.parse_bytes(b"\x1b]1337;GhostExit=2147483648\x07"),
        CommandStatus::Finished { exit_code: 0 }
    );
    assert_eq!(
        p.parse_bytes(b"\x1b]1337;GhostExit=007\x07"),
        CommandStatus::Finished { exit_code: 7 }
    );
}

#[test]
fn marker_without_bel_waits() {
    let mut p = BoundaryParser::new();
    assert_eq!(p.parse_bytes(b"\x1b]1337;GhostExit=3"), CommandStatus::Running);
    assert_eq!(p.parse_bytes(b"\x07"), CommandStatus::Finished { exit_code: 3 });
}

#[test]
fn long_output_is_cut_back() {
    let mut p = BoundaryParser::new();
    // a marker prefix followed by more than the limit of plain text
    assert_eq!(p.parse_bytes(b"\x1b]1337;GhostExit=4"), CommandStatus::Running);
    let filler = vec![b'x'; 5000];
    assert_eq!(p.parse_bytes(&filler), CommandStatus::Running);
    // the old prefix was dropped with the cut, so a BEL alone finishes nothing
    assert_eq!(p.parse_bytes(b"\x07"), CommandStatus::Running);
    assert_eq!(
        p.parse_bytes(b"\x1b]1337;GhostExit=9\x07"),
        CommandStatus::Finished { exit_code: 9 }
    );
}

#[test]
fn text_at_the_limit_is_kept_whole() {
    let mut p = BoundaryParser::new();
    let mut chunk = vec![b'y'; 4096 - 18];
    chunk.extend(b"\x1b]1337;GhostExit=5");
    assert_eq!(chunk.len(), 4096);
    assert_eq!(p.parse_bytes(&chunk), CommandStatus::Running);
    // 4096 bytes were kept, so the marker's BEL still completes it
    assert_eq!(p.parse_bytes(b"\x07"), CommandStatus::Finished { exit_code: 5 });
}

#[test]
fn invalid_utf8_is_replaced_not_copied() {
    let mut p = BoundaryParser::new();
    // 0xff becomes U+FFFD, three bytes, and the marker still parses
    assert_eq!(
        p.try_parse_bytes(b"\xff\x1b]1337;GhostExit=8\x07"),
        Some(CommandStatus::Finished { exit_code: 8 })
    );
}

#[test]
fn try_parse_refuses_a_cut_inside_a_character() {
    let mut p = BoundaryParser::new();
    // 4097 bytes: one 'a' then 1365 three-byte replacement characters and
    // one more 'a', so the cut point (4097 - 2048 = 2049) falls inside a
    // replacement character.
    let mut bytes = vec![b'a'];
    bytes.extend(vec![0xffu8; 1365]);
    bytes.push(b'a');
    assert_eq!(p.try_parse_bytes(&bytes), None);
    // nothing was taken in
    assert_eq!(p.try_parse_bytes(b"\x1b]1337;GhostExit=6\x07"), Some(CommandStatus::Finished { exit_code: 6 }));
}

#[test]
fn parse_text_takes_decoded_text() {
    let mut p = BoundaryParser::new();
    assert_eq!(p.parse_text("é\x1b]1337;GhostExit=1"), CommandStatus::Running);
    assert_eq!(p.parse_text("0\x07"), CommandStatus::Finished { exit_code: 10 });
}
