//! What a session makes of the bytes that pass through the PTY: child
//! output becomes one `output` event per line, keystrokes become one
//! `input` event per entered line.  Every event goes to the replay buffer
//! and to the live broadcast channel.

use vstd::prelude::*;
use vstd::string::StringExecFns;
use vstd::utf8::*;
use tokio::sync::broadcast::Sender;
use crate::ansi::{strip_non_sgr, strip_non_sgr_spec};
use crate::event_buffer::EventBuffer;
use crate::line_editor::{
    feed_all, law_chunked_feeding, lemma_feed_all_push, lines_entered, LineEditor,
};
use crate::strings::string_push;
use crate::types::{reported_exit_code, EventView, SseEvent, StatusState};

verus! {

broadcast use vstd::string::group_string_axioms;

/// `tokio::sync::broadcast::Sender`, the live channel to the browser tabs;
/// verified code only hands it on.
#[verifier::external_type_specification]
#[verifier::external_body]
#[verifier::reject_recursive_types(T)]
pub struct ExBroadcastSender<T>(Sender<T>);

/// The characters that `String::from_utf8_lossy` makes of `bytes`.
pub uninterp spec fn utf8_lossy(bytes: Seq<u8>) -> Seq<char>;

/// Calls `String::from_utf8_lossy`: the decoded characters, with U+FFFD in
/// place of each ill-formed part; well-formed input is decoded exactly.
#[verifier::external_body]
fn decode_lossy(bytes: &[u8]) -> (res: String)
    ensures
        res@ == utf8_lossy(bytes@),
        valid_utf8(bytes@) ==> res@ == decode_utf8(bytes@),
{
    String::from_utf8_lossy(bytes).into_owned()
}

/// The live channel to the browser tabs, with the record, in order, of
/// every event handed to it through this handle.
pub struct LiveChannel {
    tx: Sender<SseEvent>,
    sent: Ghost<Seq<EventView>>,
}

impl LiveChannel {
    /// The events sent through this handle so far, oldest first.
    pub closed spec fn sent(&self) -> Seq<EventView> {
        self.sent@
    }

    pub fn new(tx: Sender<SseEvent>) -> (res: Self)
        ensures
            res.sent() == Seq::<EventView>::empty(),
    {
        LiveChannel { tx, sent: Ghost(Seq::empty()) }
    }
}

/// Calls `broadcast::Sender::send`, which hands the event to every live
/// receiver; the record of the handle gains that event.  Sending with no
/// receiver fails and is of no concern here, so what `send` returns is not
/// kept, and nothing is said of who received the event.
#[verifier::external_body]
fn broadcast_event(live: &mut LiveChannel, event: SseEvent)
    ensures
        final(live).sent() == old(live).sent().push(event@),
{
    let _ = live.tx.send(event);
}

/// Push an event to both the buffer and the broadcast channel.
pub fn emit(event: SseEvent, live: &mut LiveChannel, buf: &mut EventBuffer)
    ensures
        final(buf)@ == old(buf)@.push(event@),
        final(live).sent() == old(live).sent().push(event@),
{
    buf.push(event.clone());
    broadcast_event(live, event);
}

/// Scanning `s` from index `i`, with `cur` the line read so far: the
/// complete lines found (each ends with `\n`) and the unfinished rest.
pub open spec fn split_from(s: Seq<char>, i: int, cur: Seq<char>) -> (
    Seq<Seq<char>>,
    Seq<char>,
)
    decreases s.len() - i,
{
    if i < 0 || i >= s.len() {
        (Seq::empty(), cur)
    } else if s[i] == '\n' {
        let r = split_from(s, i + 1, Seq::empty());
        (seq![cur.push('\n')] + r.0, r.1)
    } else {
        split_from(s, i + 1, cur.push(s[i]))
    }
}

/// The complete lines of `s` and the unfinished rest after the last `\n`.
pub open spec fn split_lines(s: Seq<char>) -> (Seq<Seq<char>>, Seq<char>) {
    split_from(s, 0, Seq::empty())
}

/// The `output` event of each line, each line filtered.
pub open spec fn output_events(lines: Seq<Seq<char>>) -> Seq<EventView> {
    lines.map_values(|l: Seq<char>| EventView::Output(strip_non_sgr_spec(l)))
}

/// The `input` event of each entered line.
pub open spec fn input_events(lines: Seq<Seq<char>>) -> Seq<EventView> {
    lines.map_values(|l: Seq<char>| EventView::Input(l))
}

/// Appends decoded child output to the unfinished line in `partial` and
/// emits one `output` event per complete `\n`-terminated line; what follows
/// the last `\n` stays in `partial`.
pub fn push_output_text(
    text: &str,
    partial: &mut String,
    live: &mut LiveChannel,
    buf: &mut EventBuffer,
)
    ensures
        final(partial)@ == split_lines(old(partial)@ + text@).1,
        final(buf)@ == old(buf)@ + output_events(split_lines(old(partial)@ + text@).0),
        final(live).sent() == old(live).sent() + output_events(
            split_lines(old(partial)@ + text@).0,
        ),
{
    let ghost buf0 = buf@;
    let ghost sent0 = live.sent();
    let mut combined = String::new();
    std::mem::swap(&mut combined, partial);
    combined.append(text);
    let ghost s = combined@;
    let mut cur = String::new();
    let ghost mut done: Seq<Seq<char>> = Seq::empty();
    assert(done + split_from(s, 0, cur@).0 =~= split_lines(s).0);
    for c in it: combined.as_str().chars()
        invariant
            s == combined@,
            it.seq() == s,
            buf@ == buf0 + output_events(done),
            live.sent() == sent0 + output_events(done),
            done + split_from(s, it.index() as int, cur@).0 == split_lines(s).0,
            split_from(s, it.index() as int, cur@).1 == split_lines(s).1,
    {
        let ghost i = it.index() as int;
        let ghost cur0 = cur@;
        let ghost rest = split_from(s, i + 1, Seq::empty());
        assert(c == s[i]);
        string_push(&mut cur, c);
        if c == '\n' {
            let stripped = strip_non_sgr(cur.as_str());
            let ghost done0 = done;
            emit(SseEvent::output(stripped.as_str()), live, buf);
            proof {
                done = done.push(cur@);
                assert(done + rest.0 =~= done0 + (seq![cur0.push('\n')] + rest.0));
                assert(output_events(done) =~= output_events(done0).push(
                    EventView::Output(strip_non_sgr_spec(cur@)),
                ));
                assert(buf0 + output_events(done) =~= buf0 + output_events(done0) + seq![
                    EventView::Output(strip_non_sgr_spec(cur@)),
                ]);
                assert(sent0 + output_events(done) =~= sent0 + output_events(done0) + seq![
                    EventView::Output(strip_non_sgr_spec(cur@)),
                ]);
            }
            cur = String::new();
            assert(cur@ =~= Seq::<char>::empty());
        }
    }
    *partial = cur;
}

/// Process a raw chunk of PTY stdout bytes: decode it (lossily) and pass it
/// to `push_output_text`.
pub fn process_stdout_chunk(
    chunk: &[u8],
    partial: &mut String,
    live: &mut LiveChannel,
    buf: &mut EventBuffer,
)
    ensures
        final(partial)@ == split_lines(old(partial)@ + utf8_lossy(chunk@)).1,
        final(buf)@ == old(buf)@ + output_events(
            split_lines(old(partial)@ + utf8_lossy(chunk@)).0,
        ),
        final(live).sent() == old(live).sent() + output_events(
            split_lines(old(partial)@ + utf8_lossy(chunk@)).0,
        ),
        valid_utf8(chunk@) ==> utf8_lossy(chunk@) == decode_utf8(chunk@),
{
    let text = decode_lossy(chunk);
    push_output_text(text.as_str(), partial, live, buf);
}

/// Emits the unfinished last line of the output, if there is one, once the
/// child's output has ended.
pub fn flush_partial_line(partial: &str, live: &mut LiveChannel, buf: &mut EventBuffer)
    ensures
        final(buf)@ == if partial@.len() > 0 {
            old(buf)@.push(EventView::Output(strip_non_sgr_spec(partial@)))
        } else {
            old(buf)@
        },
        final(live).sent() == if partial@.len() > 0 {
            old(live).sent().push(EventView::Output(strip_non_sgr_spec(partial@)))
        } else {
            old(live).sent()
        },
{
    if !partial.is_empty() {
        let stripped = strip_non_sgr(partial);
        emit(SseEvent::output(stripped.as_str()), live, buf);
    }
}

/// Ctrl+Q, the key that ends the session.
pub open spec fn is_quit_key(byte: u8) -> bool {
    byte == 0x11
}

/// What a chunk of keystrokes adds to the buffer (and sends): one `input`
/// event per line entered before the first Ctrl+Q, then, if there is a
/// Ctrl+Q, the `user_quit` status.
pub open spec fn stdin_events(ed: Seq<char>, bytes: Seq<u8>, quit: Option<int>) -> Seq<EventView> {
    match quit {
        None => input_events(lines_entered(ed, bytes)),
        Some(k) => input_events(lines_entered(ed, bytes.take(k))).push(
            EventView::Status(StatusState::UserQuit, None),
        ),
    }
}

/// Feeds keystrokes to the line editor and emits one `input` event per line
/// entered.  Ctrl+Q (0x11) is not fed: it emits `user_quit` and ends the
/// chunk, and its index is returned; the caller then forwards nothing of
/// that chunk to the child and ends the session.  Without Ctrl+Q, `None`
/// tells the caller to forward the whole chunk.
pub fn process_stdin_bytes(
    bytes: &[u8],
    editor: &mut LineEditor,
    live: &mut LiveChannel,
    buf: &mut EventBuffer,
) -> (res: Option<usize>)
    ensures
        match res {
            None => forall|j: int| 0 <= j < bytes@.len() ==> !is_quit_key(#[trigger] bytes@[j]),
            Some(k) => k < bytes@.len() && is_quit_key(bytes@[k as int]) && forall|j: int|
                0 <= j < k ==> !is_quit_key(#[trigger] bytes@[j]),
        },
        final(editor)@ == match res {
            None => feed_all(old(editor)@, bytes@),
            Some(k) => feed_all(old(editor)@, bytes@.take(k as int)),
        },
        final(buf)@ == old(buf)@ + stdin_events(
            old(editor)@,
            bytes@,
            match res {
                None => None,
                Some(k) => Some(k as int),
            },
        ),
        final(live).sent() == old(live).sent() + stdin_events(
            old(editor)@,
            bytes@,
            match res {
                None => None,
                Some(k) => Some(k as int),
            },
        ),
        res is Some ==> final(buf)@.len() > old(buf)@.len() && final(buf)@.last()
            == EventView::Status(StatusState::UserQuit, None),
        res is Some ==> final(live).sent().len() > old(live).sent().len() && final(live).sent().last()
            == EventView::Status(StatusState::UserQuit, None),
{
    let ghost buf0 = buf@;
    let ghost sent0 = live.sent();
    let ghost ed0 = editor@;
    let ghost mut done: Seq<Seq<char>> = Seq::empty();
    let n = bytes.len();
    let mut i: usize = 0;
    assert(bytes@.take(0) =~= Seq::<u8>::empty());
    while i < n
        invariant
            n == bytes@.len(),
            i <= n,
            ed0 == old(editor)@,
            buf0 == old(buf)@,
            sent0 == old(live).sent(),
            forall|j: int| 0 <= j < i ==> !is_quit_key(#[trigger] bytes@[j]),
            editor@ == feed_all(ed0, bytes@.take(i as int)),
            done == lines_entered(ed0, bytes@.take(i as int)),
            buf@ == buf0 + input_events(done),
            live.sent() == sent0 + input_events(done),
        decreases n - i,
    {
        let ghost done0 = done;
        let ghost prefix = bytes@.take(i as int);
        if bytes[i] == 0x11 {
            emit(SseEvent::user_quit(), live, buf);
            proof {
                let q = EventView::Status(StatusState::UserQuit, None);
                assert(buf0 + input_events(done).push(q) =~= buf0 + input_events(done) + seq![q]);
                assert(sent0 + input_events(done).push(q) =~= sent0 + input_events(done) + seq![q]);
            }
            return Some(i);
        }
        proof {
            assert(bytes@.take(i + 1) =~= prefix.push(bytes@[i as int]));
            lemma_feed_all_push(ed0, prefix, bytes@[i as int]);
        }
        match editor.feed(bytes[i]) {
            Some(text) => {
                emit(SseEvent::input(text.as_str()), live, buf);
                proof {
                    done = done.push(text@);
                    assert(done =~= done0 + seq![text@]);
                    assert(input_events(done) =~= input_events(done0).push(
                        EventView::Input(text@),
                    ));
                    assert(buf0 + input_events(done) =~= buf0 + input_events(done0) + seq![
                        EventView::Input(text@),
                    ]);
                    assert(sent0 + input_events(done) =~= sent0 + input_events(done0) + seq![
                        EventView::Input(text@),
                    ]);
                }
            },
            None => {
                assert(done =~= done0 + Seq::<Seq<char>>::empty());
            },
        }
        i += 1;
    }
    assert(bytes@.take(n as int) =~= bytes@);
    None
}

/// The lines joined back together.
pub open spec fn concat_lines(lines: Seq<Seq<char>>) -> Seq<char>
    decreases lines.len(),
{
    if lines.len() == 0 {
        Seq::empty()
    } else {
        lines[0] + concat_lines(lines.drop_first())
    }
}

pub open spec fn no_newline(s: Seq<char>) -> bool {
    forall|i: int| 0 <= i < s.len() ==> #[trigger] s[i] != '\n'
}

/// A line that ends with its only `\n`.
pub open spec fn is_complete_line(l: Seq<char>) -> bool {
    l.len() > 0 && l.last() == '\n' && no_newline(l.drop_last())
}

proof fn lemma_split_from_partition(s: Seq<char>, i: int, cur: Seq<char>)
    requires
        0 <= i <= s.len(),
        no_newline(cur),
    ensures
        concat_lines(split_from(s, i, cur).0) + split_from(s, i, cur).1 == cur + s.skip(i),
        forall|k: int|
            0 <= k < split_from(s, i, cur).0.len() ==> is_complete_line(
                #[trigger] split_from(s, i, cur).0[k],
            ),
        no_newline(split_from(s, i, cur).1),
    decreases s.len() - i,
{
    if i < s.len() {
        if s[i] == '\n' {
            let line = cur.push('\n');
            let r = split_from(s, i + 1, Seq::empty());
            lemma_split_from_partition(s, i + 1, Seq::empty());
            let lines = seq![line] + r.0;
            assert(lines.drop_first() =~= r.0);
            assert(line.drop_last() =~= cur);
            assert(s.skip(i) =~= seq!['\n'] + s.skip(i + 1));
            assert(concat_lines(lines) + r.1 =~= cur + s.skip(i));
            assert forall|k: int| 0 <= k < lines.len() implies is_complete_line(
                #[trigger] lines[k],
            ) by {
                if k > 0 {
                    assert(lines[k] == r.0[k - 1]);
                }
            }
        } else {
            lemma_split_from_partition(s, i + 1, cur.push(s[i]));
            assert(s.skip(i) =~= seq![s[i]] + s.skip(i + 1));
            assert(cur.push(s[i]) + s.skip(i + 1) =~= cur + s.skip(i));
        }
    } else {
        assert(cur + s.skip(i) =~= cur);
        assert(concat_lines(Seq::<Seq<char>>::empty()) + cur =~= cur);
    }
}

/// Splitting on `\n` loses nothing and adds nothing: the complete lines
/// and the rest, joined, give back the text; each line ends with its only
/// `\n`, and the rest holds none.
pub proof fn law_split_lines_partition(s: Seq<char>)
    ensures
        concat_lines(split_lines(s).0) + split_lines(s).1 == s,
        forall|k: int|
            0 <= k < split_lines(s).0.len() ==> is_complete_line(#[trigger] split_lines(s).0[k]),
        no_newline(split_lines(s).1),
{
    lemma_split_from_partition(s, 0, Seq::empty());
    assert(Seq::<char>::empty() + s.skip(0) =~= s);
}

proof fn lemma_split_from_shift(a: Seq<char>, b: Seq<char>, j: int, cur: Seq<char>)
    requires
        0 <= j <= b.len(),
    ensures
        split_from(a + b, a.len() + j, cur) == split_from(b, j, cur),
    decreases b.len() - j,
{
    if j < b.len() {
        assert((a + b)[a.len() + j] == b[j]);
        if b[j] == '\n' {
            lemma_split_from_shift(a, b, j + 1, Seq::empty());
        } else {
            lemma_split_from_shift(a, b, j + 1, cur.push(b[j]));
        }
    }
}

proof fn lemma_split_from_concat(a: Seq<char>, b: Seq<char>, i: int, cur: Seq<char>)
    requires
        0 <= i <= a.len(),
    ensures
        split_from(a + b, i, cur) == ({
            let r = split_from(a, i, cur);
            let q = split_from(b, 0, r.1);
            (r.0 + q.0, q.1)
        }),
    decreases a.len() - i,
{
    if i < a.len() {
        assert((a + b)[i] == a[i]);
        if a[i] == '\n' {
            lemma_split_from_concat(a, b, i + 1, Seq::empty());
            let r = split_from(a, i + 1, Seq::empty());
            let q = split_from(b, 0, r.1);
            assert(seq![cur.push('\n')] + (r.0 + q.0) =~= (seq![cur.push('\n')] + r.0) + q.0);
        } else {
            lemma_split_from_concat(a, b, i + 1, cur.push(a[i]));
        }
    } else {
        lemma_split_from_shift(a, b, 0, cur);
        assert(Seq::<Seq<char>>::empty() + split_from(b, 0, cur).0 =~= split_from(b, 0, cur).0);
    }
}

proof fn lemma_split_from_unfinished_prefix(r: Seq<char>, b: Seq<char>, i: int, cur: Seq<char>)
    requires
        0 <= i <= r.len(),
        no_newline(r),
    ensures
        split_from(r + b, i, cur) == split_from(b, 0, cur + r.skip(i)),
    decreases r.len() - i,
{
    if i < r.len() {
        assert((r + b)[i] == r[i]);
        assert(r[i] != '\n');
        lemma_split_from_unfinished_prefix(r, b, i + 1, cur.push(r[i]));
        assert(cur.push(r[i]) + r.skip(i + 1) =~= cur + r.skip(i));
    } else {
        lemma_split_from_shift(r, b, 0, cur);
        assert(cur + r.skip(i) =~= cur);
    }
}

/// Output is split the same however it arrives: text handed over in two
/// pieces (the second joined to what the first left unfinished) yields the
/// same lines, in the same order, and the same unfinished rest as the
/// whole text handed over at once.
pub proof fn law_chunking_invariant(partial: Seq<char>, a: Seq<char>, b: Seq<char>)
    ensures
        ({
            let first = split_lines(partial + a);
            let second = split_lines(first.1 + b);
            let whole = split_lines(partial + a + b);
            &&& first.0 + second.0 == whole.0
            &&& second.1 == whole.1
            &&& output_events(first.0) + output_events(second.0) == output_events(whole.0)
        }),
{
    let first = split_lines(partial + a);
    law_split_lines_partition(partial + a);
    lemma_split_from_concat(partial + a, b, 0, Seq::empty());
    lemma_split_from_unfinished_prefix(first.1, b, 0, Seq::empty());
    assert(Seq::<char>::empty() + first.1.skip(0) =~= first.1);
    let second = split_lines(first.1 + b);
    assert(output_events(first.0) + output_events(second.0) =~= output_events(
        first.0 + second.0,
    ));
}


/* The order of a session's events. */

/// Where a session stands: before the child is spawned, while its output
/// is read, after its output has ended, and after it has exited (or failed
/// to start).
#[derive(Clone, Copy, Debug, PartialEq, Eq, Structural)]
pub enum SessionPhase {
    Starting,
    Running,
    Drained,
    Finished,
}

/// A session's phase and the unfinished last line of its output.
pub struct SessionView {
    pub phase: SessionPhase,
    pub partial: Seq<char>,
}

/// The life of one PTY session, as far as the browser sees it: the status
/// events and the output lines, in the order they may come.
pub struct Session {
    phase: SessionPhase,
    partial: String,
}

impl View for Session {
    type V = SessionView;

    closed spec fn view(&self) -> SessionView {
        SessionView { phase: self.phase, partial: self.partial@ }
    }
}

pub open spec fn new_session() -> SessionView {
    SessionView { phase: SessionPhase::Starting, partial: Seq::empty() }
}

/// Spawning the child: `connected` when it started, `pty_error` when it
/// did not; only before anything else has happened.
pub open spec fn spawn_step(v: SessionView, ok: bool) -> (SessionView, Seq<EventView>) {
    if v.phase == SessionPhase::Starting {
        if ok {
            (
                SessionView { phase: SessionPhase::Running, partial: v.partial },
                seq![EventView::Status(StatusState::Connected, None)],
            )
        } else {
            (
                SessionView { phase: SessionPhase::Finished, partial: v.partial },
                seq![EventView::Status(StatusState::PtyError, None)],
            )
        }
    } else {
        (v, Seq::empty())
    }
}

/// Decoded child output: one `output` event per completed line, while the
/// output is being read.
pub open spec fn output_step(v: SessionView, text: Seq<char>) -> (SessionView, Seq<EventView>) {
    if v.phase == SessionPhase::Running {
        let r = split_lines(v.partial + text);
        (SessionView { phase: SessionPhase::Running, partial: r.1 }, output_events(r.0))
    } else {
        (v, Seq::empty())
    }
}

/// The `output` event of an unfinished last line, if there is one.
pub open spec fn tail_events(partial: Seq<char>) -> Seq<EventView> {
    if partial.len() > 0 {
        seq![EventView::Output(strip_non_sgr_spec(partial))]
    } else {
        Seq::empty()
    }
}

/// The end of the child's output: the unfinished last line is emitted.
pub open spec fn end_step(v: SessionView) -> (SessionView, Seq<EventView>) {
    if v.phase == SessionPhase::Running {
        (SessionView { phase: SessionPhase::Drained, partial: Seq::empty() }, tail_events(v.partial))
    } else {
        (v, Seq::empty())
    }
}

/// The child's exit, once its output has ended: `pty_exited` with the code
/// (none for 0).
pub open spec fn exit_step(v: SessionView, code: i32) -> (SessionView, Seq<EventView>) {
    if v.phase == SessionPhase::Drained {
        (
            SessionView { phase: SessionPhase::Finished, partial: v.partial },
            seq![EventView::Status(StatusState::PtyExited, reported_exit_code(Some(code)))],
        )
    } else {
        (v, Seq::empty())
    }
}

impl Session {
    pub fn new() -> (res: Self)
        ensures
            res@ == new_session(),
    {
        Session { phase: SessionPhase::Starting, partial: String::new() }
    }

    /// The outcome of spawning the child.
    pub fn on_spawn(&mut self, ok: bool, live: &mut LiveChannel, buf: &mut EventBuffer)
        ensures
            final(self)@ == spawn_step(old(self)@, ok).0,
            final(buf)@ == old(buf)@ + spawn_step(old(self)@, ok).1,
            final(live).sent() == old(live).sent() + spawn_step(old(self)@, ok).1,
    {
        if self.phase == SessionPhase::Starting {
            let ghost b0 = buf@;
            let ghost s0 = live.sent();
            if ok {
                emit(SseEvent::connected(), live, buf);
                self.phase = SessionPhase::Running;
            } else {
                emit(SseEvent::pty_error(), live, buf);
                self.phase = SessionPhase::Finished;
            }
            assert(buf@ =~= b0 + spawn_step(old(self)@, ok).1);
            assert(live.sent() =~= s0 + spawn_step(old(self)@, ok).1);
        } else {
            assert(buf@ =~= buf@ + Seq::<EventView>::empty());
            assert(live.sent() =~= live.sent() + Seq::<EventView>::empty());
        }
    }

    /// A chunk of child output, decoded lossily.
    pub fn on_output(&mut self, chunk: &[u8], live: &mut LiveChannel, buf: &mut EventBuffer)
        ensures
            final(self)@ == output_step(old(self)@, utf8_lossy(chunk@)).0,
            final(buf)@ == old(buf)@ + output_step(old(self)@, utf8_lossy(chunk@)).1,
            final(live).sent() == old(live).sent() + output_step(old(self)@, utf8_lossy(chunk@)).1,
    {
        if self.phase == SessionPhase::Running {
            process_stdout_chunk(chunk, &mut self.partial, live, buf);
        } else {
            assert(buf@ =~= buf@ + Seq::<EventView>::empty());
            assert(live.sent() =~= live.sent() + Seq::<EventView>::empty());
        }
    }

    /// The end of the child's output.
    pub fn on_output_end(&mut self, live: &mut LiveChannel, buf: &mut EventBuffer)
        ensures
            final(self)@ == end_step(old(self)@).0,
            final(buf)@ == old(buf)@ + end_step(old(self)@).1,
            final(live).sent() == old(live).sent() + end_step(old(self)@).1,
    {
        if self.phase == SessionPhase::Running {
            let ghost b0 = buf@;
            let ghost s0 = live.sent();
            flush_partial_line(self.partial.as_str(), live, buf);
            assert(buf@ =~= b0 + tail_events(self.partial@));
            assert(live.sent() =~= s0 + tail_events(self.partial@));
            self.partial = String::new();
            self.phase = SessionPhase::Drained;
        } else {
            assert(buf@ =~= buf@ + Seq::<EventView>::empty());
            assert(live.sent() =~= live.sent() + Seq::<EventView>::empty());
        }
    }

    /// The child's exit code.
    pub fn on_exit(&mut self, code: i32, live: &mut LiveChannel, buf: &mut EventBuffer)
        ensures
            final(self)@ == exit_step(old(self)@, code).0,
            final(buf)@ == old(buf)@ + exit_step(old(self)@, code).1,
            final(live).sent() == old(live).sent() + exit_step(old(self)@, code).1,
    {
        if self.phase == SessionPhase::Drained {
            let ghost b0 = buf@;
            let ghost s0 = live.sent();
            emit(SseEvent::pty_exited(Some(code)), live, buf);
            self.phase = SessionPhase::Finished;
            assert(buf@ =~= b0 + exit_step(old(self)@, code).1);
            assert(live.sent() =~= s0 + exit_step(old(self)@, code).1);
        } else {
            assert(buf@ =~= buf@ + Seq::<EventView>::empty());
            assert(live.sent() =~= live.sent() + Seq::<EventView>::empty());
        }
    }
}

/// The texts joined together.
pub open spec fn concat_texts(ts: Seq<Seq<char>>) -> Seq<char>
    decreases ts.len(),
{
    if ts.len() == 0 {
        Seq::empty()
    } else {
        ts[0] + concat_texts(ts.drop_first())
    }
}

/// The session after the decoded output texts `ts`, one after the other,
/// and the events they gave.
pub open spec fn outputs_fold(v: SessionView, ts: Seq<Seq<char>>) -> (SessionView, Seq<EventView>)
    decreases ts.len(),
{
    if ts.len() == 0 {
        (v, Seq::empty())
    } else {
        let a = output_step(v, ts[0]);
        let b = outputs_fold(a.0, ts.drop_first());
        (b.0, a.1 + b.1)
    }
}

/// The events of a session whose child starts, writes the output chunks
/// `chunks`, and exits with `code`, each step taken in turn.
pub open spec fn session_events(chunks: Seq<Seq<u8>>, code: i32) -> Seq<EventView> {
    let a = spawn_step(new_session(), true);
    let b = outputs_fold(a.0, chunks.map_values(|c: Seq<u8>| utf8_lossy(c)));
    let c = end_step(b.0);
    let d = exit_step(c.0, code);
    a.1 + b.1 + c.1 + d.1
}

proof fn lemma_outputs_fold(p: Seq<char>, ts: Seq<Seq<char>>)
    requires
        no_newline(p),
    ensures
        outputs_fold(SessionView { phase: SessionPhase::Running, partial: p }, ts) == (
            SessionView {
                phase: SessionPhase::Running,
                partial: split_lines(p + concat_texts(ts)).1,
            },
            output_events(split_lines(p + concat_texts(ts)).0),
        ),
    decreases ts.len(),
{
    if ts.len() == 0 {
        assert(p + concat_texts(ts) =~= p);
        lemma_split_from_unfinished_prefix(p, Seq::empty(), 0, Seq::empty());
        assert(p + Seq::<char>::empty() =~= p);
        assert(Seq::<char>::empty() + p.skip(0) =~= p);
        assert(output_events(Seq::<Seq<char>>::empty()) =~= Seq::<EventView>::empty());
    } else {
        let t0 = ts[0];
        let rest = ts.drop_first();
        let first = split_lines(p + t0);
        law_split_lines_partition(p + t0);
        lemma_outputs_fold(first.1, rest);
        law_chunking_invariant(p, t0, concat_texts(rest));
        assert(p + t0 + concat_texts(rest) =~= p + concat_texts(ts));
    }
}

/// A session whose child starts emits `connected`, then one `output` event
/// per line of its output (decoded chunk by chunk, and split as if it had
/// come in one piece), then the unfinished last line if there is one, then
/// `pty_exited` with the exit code; the same events in the same order go
/// to the buffer and to the live channel.
pub proof fn law_session_order(chunks: Seq<Seq<u8>>, code: i32)
    ensures
        ({
            let text = concat_texts(chunks.map_values(|c: Seq<u8>| utf8_lossy(c)));
            session_events(chunks, code) == seq![
                EventView::Status(StatusState::Connected, None),
            ] + output_events(split_lines(text).0) + tail_events(split_lines(text).1) + seq![
                EventView::Status(StatusState::PtyExited, reported_exit_code(Some(code))),
            ]
        }),
{
    let ts = chunks.map_values(|c: Seq<u8>| utf8_lossy(c));
    assert(no_newline(Seq::<char>::empty()));
    lemma_outputs_fold(Seq::empty(), ts);
    assert(Seq::<char>::empty() + concat_texts(ts) =~= concat_texts(ts));
}

/// A session whose child fails to start emits `pty_error` and nothing
/// after it.
pub proof fn law_failed_spawn(text: Seq<char>, code: i32)
    ensures
        spawn_step(new_session(), false).1 == seq![EventView::Status(StatusState::PtyError, None)],
        output_step(spawn_step(new_session(), false).0, text).1 == Seq::<EventView>::empty(),
        end_step(spawn_step(new_session(), false).0).1 == Seq::<EventView>::empty(),
        exit_step(spawn_step(new_session(), false).0, code).1 == Seq::<EventView>::empty(),
        spawn_step(spawn_step(new_session(), false).0, true).1 == Seq::<EventView>::empty(),
{
}


/* Keystrokes over a whole session. */

/// The chunks joined together.
pub open spec fn concat_chunks(cs: Seq<Seq<u8>>) -> Seq<u8>
    decreases cs.len(),
{
    if cs.len() == 0 {
        Seq::empty()
    } else {
        cs[0] + concat_chunks(cs.drop_first())
    }
}

/// The editor's buffer and the events after `process_stdin_bytes` has
/// taken the chunks `cs`, one after the other, none holding Ctrl+Q.
pub open spec fn stdin_fold(ed: Seq<char>, cs: Seq<Seq<u8>>) -> (Seq<char>, Seq<EventView>)
    decreases cs.len(),
{
    if cs.len() == 0 {
        (ed, Seq::empty())
    } else {
        let r = stdin_fold(feed_all(ed, cs[0]), cs.drop_first());
        (r.0, stdin_events(ed, cs[0], None) + r.1)
    }
}

/// Keystrokes that come in chunks give the `input` events, in order, of
/// the whole stream fed at once to a fresh editor: one per line entered.
pub proof fn law_stdin_stream(ed: Seq<char>, cs: Seq<Seq<u8>>)
    ensures
        stdin_fold(ed, cs) == (
            feed_all(ed, concat_chunks(cs)),
            input_events(lines_entered(ed, concat_chunks(cs))),
        ),
    decreases cs.len(),
{
    if cs.len() == 0 {
        assert(feed_all(ed, Seq::<u8>::empty()) == ed);
        assert(lines_entered(ed, Seq::<u8>::empty()) == Seq::<Seq<char>>::empty());
        assert(input_events(Seq::<Seq<char>>::empty()) =~= Seq::<EventView>::empty());
    } else {
        let c0 = cs[0];
        let rest = cs.drop_first();
        law_stdin_stream(feed_all(ed, c0), rest);
        law_chunked_feeding(ed, c0, concat_chunks(rest));
        let l1 = lines_entered(ed, c0);
        let l2 = lines_entered(feed_all(ed, c0), concat_chunks(rest));
        assert(input_events(l1) + input_events(l2) =~= input_events(l1 + l2));
    }
}


/// Ctrl+Q always ends the chunk's events with `user_quit`, wherever it
/// stands in the chunk (at its very start too): before it come exactly the
/// `input` events of the lines entered before it.
pub proof fn law_quit_is_announced(ed: Seq<char>, bytes: Seq<u8>, k: int)
    ensures
        stdin_events(ed, bytes, Some(k)).len() >= 1,
        stdin_events(ed, bytes, Some(k)).last() == EventView::Status(StatusState::UserQuit, None),
        stdin_events(ed, bytes, Some(k)).drop_last() == input_events(
            lines_entered(ed, bytes.take(k)),
        ),
        stdin_events(ed, bytes, Some(0)) == seq![EventView::Status(StatusState::UserQuit, None)],
{
    assert(stdin_events(ed, bytes, Some(k)).drop_last() =~= input_events(
        lines_entered(ed, bytes.take(k)),
    ));
    assert(bytes.take(0) =~= Seq::<u8>::empty());
    assert(lines_entered(ed, bytes.take(0)) =~= Seq::<Seq<char>>::empty());
    assert(input_events(Seq::<Seq<char>>::empty()) =~= Seq::<EventView>::empty());
    assert(stdin_events(ed, bytes, Some(0)) =~= seq![
        EventView::Status(StatusState::UserQuit, None),
    ]);
}

} // verus!
