# shellymcshellface

Wraps a terminal command in a PTY and streams its output, line by line, to
a local browser page over Server-Sent Events.  Input stays in the terminal.

The logic is a Verus-verified library under `src/`:

- `ansi`: the escape-sequence filter applied to each output line (SGR kept,
  line-rewriting cursor moves turned into `\r`, other CSI sequences into
  U+E000, everything else removed, an `ESC` with the whole character after
  it); `ansi_laws` proves what it keeps, that its output is always UTF-8,
  that every `ESC` left starts an SGR sequence, that it never lengthens its
  input, and that it is idempotent.
- `line_editor`: the mirror of what the user types, which names each group
  of output in the browser.
- `pty`: splitting child output into lines and entered keystrokes into
  `input` events (Ctrl+Q ends the session with `user_quit`), each event
  recorded in the replay buffer and sent on the live channel; the session's
  step functions fix the order `connected`, output lines, last line,
  `pty_exited` (or `pty_error` alone), with laws that neither output nor
  keystrokes depend on how they were chunked.
- `event_buffer`: the append-only replay record of a session.
- `types`, `json`: the events and their SSE wire form.
- `cli`: the command line, and the port scan step, which settles on the
  least free port of the window.

`app/` holds the program around it: `main`, the axum server, the PTY
session (portable-pty, crossterm) and opening the browser.  The page and
its scripts are read from a `frontend/` directory next to the executable.
