use ghost_core::buffer::RollingBuffer;

#[test]
fn lines_are_collected_and_trimmed() {
    let mut b = RollingBuffer::new(50);
    b.push_bytes(b"  first line  \r\nsecond\n\n   \nthird");
    assert_eq!(b.get_context(), "first line\nsecond");
    b.push_bytes(b"\r");
    assert_eq!(b.get_context(), "first line\nsecond\nthird");
}

#[test]
fn escape_sequences_are_stripped() {
    let mut b = RollingBuffer::new(10);
    b.push_bytes(b"\x1b[31mred\x1b[0m text\x1b]0;title\x07!\x1bZ\x01\r\n");
    assert_eq!(b.get_context(), "red text!");
}

#[test]
fn osc_ends_at_escape_too() {
    let mut b = RollingBuffer::new(10);
    b.push_bytes(b"a\x1b]1337;GhostExit=1\x1bX b\n");
    assert_eq!(b.get_context(), "aX b");
}

#[test]
fn oldest_lines_roll_off() {
    let mut b = RollingBuffer::new(2);
    b.push_bytes(b"one\ntwo\nthree\n");
    assert_eq!(b.get_context(), "two\nthree");
}

#[test]
fn zero_capacity_keeps_latest_line() {
    let mut b = RollingBuffer::new(0);
    b.push_bytes(b"one\ntwo\n");
    assert_eq!(b.get_context(), "two");
}

#[test]
fn chunked_input_matches_whole_input() {
    let data: &[u8] = b"user@host:~$ ls\r\n\x1b[1mfile\x1b[0m\r\nuser@host:~$ cat x\r\n";
    let mut whole = RollingBuffer::new(5);
    whole.push_bytes(data);
    let mut pieces = RollingBuffer::new(5);
    for chunk in data.chunks(3) {
        pieces.push_bytes(chunk);
    }
    assert_eq!(whole.get_context(), pieces.get_context());
    assert_eq!(whole.extract_last_command(), pieces.extract_last_command());
}

#[test]
fn last_command_after_dollar_prompt() {
    let mut b = RollingBuffer::new(50);
    b.push_bytes(b"user@host:~/proj$ cat missing.txt\r\ncat: missing.txt: No such file or directory\r\n");
    assert_eq!(b.extract_last_command(), "cat missing.txt");
}

#[test]
fn last_command_after_angle_prompt() {
    let mut b = RollingBuffer::new(50);
    b.push_bytes(b"PS C:\\Users\\me> Get-Item nope\r\n");
    assert_eq!(b.extract_last_command(), "Get-Item nope");
}

#[test]
fn banners_and_shell_errors_are_skipped() {
    let mut b = RollingBuffer::new(50);
    b.push_bytes(b"me$ npm test\n[Ghost Intercepted Failure: Exit Code 1]\nbash: foo: command not found\n== Ghost Doctor $ x ==\n");
    assert_eq!(b.extract_last_command(), "npm test");
}

#[test]
fn empty_command_after_prompt_is_skipped() {
    let mut b = RollingBuffer::new(50);
    b.push_bytes(b"me$ make\nme$ \nme>\n");
    assert_eq!(b.extract_last_command(), "make");
}

#[test]
fn dollar_wins_over_angle() {
    let mut b = RollingBuffer::new(50);
    b.push_bytes(b"a> b $ echo hi > out.txt\n");
    assert_eq!(b.extract_last_command(), "echo hi > out.txt");
}

#[test]
fn unknown_command_without_prompt() {
    let b = RollingBuffer::new(50);
    assert_eq!(b.extract_last_command(), "unknown_command");
    let mut c = RollingBuffer::new(50);
    c.push_bytes(b"just output\n");
    assert_eq!(c.extract_last_command(), "unknown_command");
}

#[test]
fn dollar_inside_command_is_kept() {
    let mut b = RollingBuffer::new(50);
    b.push_bytes(b"user@host:~$ echo $HOME\n");
    assert_eq!(b.extract_last_command(), "echo $HOME");
    b.push_bytes(b"user@host:~$ git log --format=$x>out\n");
    assert_eq!(b.extract_last_command(), "git log --format=$x>out");
}

#[test]
fn angle_prompt_with_redirect_in_command() {
    let mut b = RollingBuffer::new(50);
    b.push_bytes(b"PS C:\\> echo hi>out.txt\n");
    assert_eq!(b.extract_last_command(), "echo hi>out.txt");
}

#[test]
fn prompt_symbol_without_space_falls_back_to_last_symbol() {
    let mut b = RollingBuffer::new(50);
    b.push_bytes(b"C:\\Users\\dev>git status\r\n");
    assert_eq!(b.extract_last_command(), "git status");
    b.push_bytes(b"x$ls\n");
    assert_eq!(b.extract_last_command(), "ls");
    b.push_bytes(b"a$b$ c\n");
    assert_eq!(b.extract_last_command(), "c");
    b.push_bytes(b"p$q>r\n");
    assert_eq!(b.extract_last_command(), "q>r");
}

#[test]
fn context_never_holds_more_lines_than_the_cap() {
    let mut b = RollingBuffer::new(3);
    assert_eq!(b.get_context(), "");
    for i in 0..10 {
        b.push_bytes(format!("line {}\r\n", i).as_bytes());
        let ctx = b.get_context();
        assert!(ctx.split('\n').count() <= 3);
        assert_eq!(ctx.split('\n').count(), std::cmp::min(i + 1, 3));
    }
    assert_eq!(b.get_context(), "line 7\nline 8\nline 9");
}
