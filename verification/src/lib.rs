//! A PTY-to-browser bridge: the verified core.
//!
//! The modules hold the logic that turns raw terminal traffic into the
//! events that a browser page renders: the escape-sequence filter, the
//! server-side line editor, the replay buffer of events, the command-line
//! parser and the line splitter for child output.

pub mod ansi;
pub mod ansi_laws;
pub mod cli;
pub mod event_buffer;
pub mod json;
pub mod line_editor;
pub mod pty;
pub mod strings;
pub mod types;
