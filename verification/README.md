# ghost_core

The verified core of a terminal wrapper that runs the user's shell in a
pseudoterminal, notices failed commands through an exit-code marker that the
shell prints after each command, asks a local daemon for a diagnosis, and
stages the suggested fix behind a confirmation whose strictness depends on the
fix's risk.

Layout:

- `src/` — the library, verified with Verus:
  - `text.rs`: whitespace, trimming, searching, decimal output, and the few
    calls into std whose results are trusted;
  - `boundary.rs`: recognising the `ESC ] 1337 ; GhostExit = <code> BEL`
    marker in the shell's output;
  - `buffer.rs`: the rolling buffer of recent output lines with escape
    sequences stripped, and recovery of the last typed command;
  - `safety.rs`: the Safe / HighRisk / Critical risk engine;
  - `session.rs`: what happens after each command (diagnosis, prompts,
    confirmations), the messages printed, and key forwarding;
  - `doctor.rs`: the `ghost doctor` command line and its reports;
  - `ipc_client.rs`: the daemon's message types and request URLs;
  - `pty.rs`: choosing the shell and its start-up line.
- `tests/` — tests of the library on concrete values.
- `app/` — the program: pseudoterminal, raw terminal mode, key events, HTTP
  requests, files and threads, driving the library.
