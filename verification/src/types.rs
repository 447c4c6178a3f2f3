//! The events that the browser receives, and their SSE wire form.

use vstd::prelude::*;
use vstd::string::StringExecFns;
use crate::json::{
    int_decimal, json_escape, json_int_of, json_string, json_string_of, json_unescape,
    law_json_escape_round_trip,
};

verus! {

broadcast use vstd::string::group_string_axioms;

#[derive(Clone, Copy, Debug, PartialEq, Eq, Structural)]
pub enum StatusState {
    Connected,
    PtyExited,
    PtyError,
    UserQuit,
}

#[derive(Debug)]
pub enum SseEvent {
    Input { text: String },
    Output { text: String },
    Status { state: StatusState, code: Option<i32> },
}

/// An event as a mathematical value: its kind and the characters or the
/// status it carries.
pub enum EventView {
    Input(Seq<char>),
    Output(Seq<char>),
    Status(StatusState, Option<i32>),
}

impl View for SseEvent {
    type V = EventView;

    open spec fn view(&self) -> EventView {
        match self {
            SseEvent::Input { text } => EventView::Input(text@),
            SseEvent::Output { text } => EventView::Output(text@),
            SseEvent::Status { state, code } => EventView::Status(*state, *code),
        }
    }
}

impl Clone for SseEvent {
    fn clone(&self) -> (res: Self)
        ensures
            res == *self,
    {
        match self {
            SseEvent::Input { text } => SseEvent::Input { text: text.clone() },
            SseEvent::Output { text } => SseEvent::Output { text: text.clone() },
            SseEvent::Status { state, code } => SseEvent::Status { state: *state, code: *code },
        }
    }
}

/// The exit code that a `pty_exited` status carries: none for success.
pub open spec fn reported_exit_code(code: Option<i32>) -> Option<i32> {
    match code {
        Some(c) => if c != 0 {
            Some(c)
        } else {
            None
        },
        None => None,
    }
}

/// The SSE event name of an event.
pub open spec fn sse_event_type(e: EventView) -> Seq<char> {
    match e {
        EventView::Input(_) => "input"@,
        EventView::Output(_) => "output"@,
        EventView::Status(_, _) => "status"@,
    }
}

/// The name of a status on the wire (snake case).
pub open spec fn status_name(s: StatusState) -> Seq<char> {
    match s {
        StatusState::Connected => "connected"@,
        StatusState::PtyExited => "pty_exited"@,
        StatusState::PtyError => "pty_error"@,
        StatusState::UserQuit => "user_quit"@,
    }
}

/// The JSON payload of an event: `{"text":...}` for input and output,
/// `{"code":...,"state":"..."}` for a status with a code and
/// `{"state":"..."}` for one without (the code is optional; keys in sorted
/// order, as a serde_json map writes them).
pub open spec fn sse_event_data(e: EventView) -> Seq<char> {
    match e {
        EventView::Input(t) => "{\"text\":"@ + json_string(t) + "}"@,
        EventView::Output(t) => "{\"text\":"@ + json_string(t) + "}"@,
        EventView::Status(s, code) => match code {
            Some(c) => "{\"code\":"@ + int_decimal(c as int) + ",\"state\":\""@ + status_name(s)
                + "\"}"@,
            None => "{\"state\":\""@ + status_name(s) + "\"}"@,
        },
    }
}

impl SseEvent {
    pub fn output(text: &str) -> (res: Self)
        ensures
            res@ == EventView::Output(text@),
    {
        SseEvent::Output { text: text.to_string() }
    }

    pub fn input(text: &str) -> (res: Self)
        ensures
            res@ == EventView::Input(text@),
    {
        SseEvent::Input { text: text.to_string() }
    }

    pub fn connected() -> (res: Self)
        ensures
            res@ == EventView::Status(StatusState::Connected, None),
    {
        SseEvent::Status { state: StatusState::Connected, code: None }
    }

    /// A zero exit code is success and is not reported.
    pub fn pty_exited(code: Option<i32>) -> (res: Self)
        ensures
            res@ == EventView::Status(StatusState::PtyExited, reported_exit_code(code)),
    {
        let emit_code = match code {
            Some(c) => if c != 0 {
                Some(c)
            } else {
                None
            },
            None => None,
        };
        SseEvent::Status { state: StatusState::PtyExited, code: emit_code }
    }

    pub fn pty_error() -> (res: Self)
        ensures
            res@ == EventView::Status(StatusState::PtyError, None),
    {
        SseEvent::Status { state: StatusState::PtyError, code: None }
    }

    pub fn user_quit() -> (res: Self)
        ensures
            res@ == EventView::Status(StatusState::UserQuit, None),
    {
        SseEvent::Status { state: StatusState::UserQuit, code: None }
    }

    /// Returns (event_type, json_data_string) for the SSE wire format.
    pub fn to_sse_parts(&self) -> (res: (String, String))
        ensures
            res.0@ == sse_event_type(self@),
            res.1@ == sse_event_data(self@),
    {
        match self {
            SseEvent::Output { text } => {
                let data = text_payload(text.as_str());
                ("output".to_string(), data)
            },
            SseEvent::Input { text } => {
                let data = text_payload(text.as_str());
                ("input".to_string(), data)
            },
            SseEvent::Status { state, code } => {
                let mut data = String::new();
                match code {
                    Some(c) => {
                        data.append("{\"code\":");
                        let code_json = json_int_of(*c);
                        data.append(code_json.as_str());
                        data.append(",\"state\":\"");
                    },
                    None => {
                        data.append("{\"state\":\"");
                    },
                }
                let name = match state {
                    StatusState::Connected => "connected",
                    StatusState::PtyExited => "pty_exited",
                    StatusState::PtyError => "pty_error",
                    StatusState::UserQuit => "user_quit",
                };
                data.append(name);
                data.append("\"}");
                ("status".to_string(), data)
            },
        }
    }
}

/// `{"text":<text as a JSON string>}`.
fn text_payload(text: &str) -> (res: String)
    ensures
        res@ == "{\"text\":"@ + json_string(text@) + "}"@,
{
    let mut data = String::new();
    data.append("{\"text\":");
    let quoted = json_string_of(text);
    data.append(quoted.as_str());
    data.append("}");
    data
}


/// A non-zero exit code is reported as it is, whatever its value; a zero
/// code (success) and a missing code are not reported.  On the wire the
/// code of a failed child appears under `"code"`.
pub proof fn law_exit_code_reported(c: i32)
    ensures
        c != 0 ==> reported_exit_code(Some(c)) == Some(c),
        reported_exit_code(Some(0i32)) == None::<i32>,
        reported_exit_code(None) == None::<i32>,
        c != 0 ==> sse_event_data(
            EventView::Status(StatusState::PtyExited, reported_exit_code(Some(c))),
        ) == "{\"code\":"@ + int_decimal(c as int) + ",\"state\":\"pty_exited\"}"@,
        sse_event_data(EventView::Status(StatusState::PtyExited, reported_exit_code(Some(0i32))))
            == "{\"state\":\"pty_exited\"}"@,
{
    reveal_strlit("pty_exited");
    reveal_strlit(",\"state\":\"");
    reveal_strlit("\"}");
    reveal_strlit(",\"state\":\"pty_exited\"}");
    reveal_strlit("{\"state\":\"");
    reveal_strlit("{\"state\":\"pty_exited\"}");
    assert(",\"state\":\""@ + "pty_exited"@ + "\"}"@ =~= ",\"state\":\"pty_exited\"}"@);
    assert("{\"state\":\""@ + "pty_exited"@ + "\"}"@ =~= "{\"state\":\"pty_exited\"}"@);
    if c != 0 {
        let d = int_decimal(c as int);
        assert("{\"code\":"@ + d + ",\"state\":\""@ + "pty_exited"@ + "\"}"@ =~= "{\"code\":"@ + d
            + ",\"state\":\"pty_exited\"}"@);
    }
}

/// A line of output and a line of input travel in the same form: the
/// payload is `{"text":"` then the escaped text then `"}`, and reading the
/// escaped part back gives the text unchanged, line endings included.
pub proof fn law_text_payload(t: Seq<char>)
    ensures
        sse_event_data(EventView::Output(t)) == sse_event_data(EventView::Input(t)),
        ({
            let d = sse_event_data(EventView::Output(t));
            &&& d.len() >= 11
            &&& d.take(9) == "{\"text\":\""@
            &&& d.skip(d.len() - 2) == "\"}"@
            &&& json_unescape(d.subrange(9, d.len() - 2)) == t
        }),
{
    reveal_strlit("{\"text\":");
    reveal_strlit("}");
    reveal_strlit("{\"text\":\"");
    reveal_strlit("\"}");
    let d = sse_event_data(EventView::Output(t));
    let e = json_escape(t);
    assert(d =~= "{\"text\":\""@ + e + "\"}"@);
    assert(d.take(9) =~= "{\"text\":\""@);
    assert(d.skip(d.len() - 2) =~= "\"}"@);
    assert(d.subrange(9, d.len() - 2) =~= e);
    law_json_escape_round_trip(t);
}

} // verus!
