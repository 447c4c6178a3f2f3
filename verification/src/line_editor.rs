//! The server-side line editor that mirrors what the user types, so that
//! each entered command can head its own group in the browser.

use vstd::prelude::*;
use vstd::utf8::*;
use crate::strings::{string_pop, string_push};

verus! {

broadcast use vstd::string::group_string_axioms;

/// Printable ASCII: the bytes that the editor appends to its buffer.
pub open spec fn is_printable(byte: u8) -> bool {
    0x20 <= byte <= 0x7e
}

/// The two Enter bytes, CR and LF.
pub open spec fn is_enter(byte: u8) -> bool {
    byte == 0x0d || byte == 0x0a
}

/// Backspace as terminals send it (DEL).
pub open spec fn is_backspace(byte: u8) -> bool {
    byte == 0x7f
}

/// Every character of `s` is printable ASCII.
pub open spec fn printable_line(s: Seq<char>) -> bool {
    forall|i: int| 0 <= i < s.len() ==> ' ' <= #[trigger] s[i] <= '~'
}

/// A line that holds nothing but spaces (the only whitespace a printable
/// line can hold), the empty line included.
pub open spec fn is_blank(s: Seq<char>) -> bool {
    forall|i: int| 0 <= i < s.len() ==> #[trigger] s[i] == ' '
}

/// The text reported for an entered line that is empty or blank.
pub open spec fn empty_command() -> Seq<char> {
    "(empty command)"@
}

/// The text reported when a line is entered.
pub open spec fn resolved_line(s: Seq<char>) -> Seq<char> {
    if is_blank(s) {
        empty_command()
    } else {
        s
    }
}

/// The buffer after feeding `byte` to an editor whose buffer is `buf`.
pub open spec fn feed_buffer(buf: Seq<char>, byte: u8) -> Seq<char> {
    if is_backspace(byte) {
        if buf.len() > 0 {
            buf.drop_last()
        } else {
            buf
        }
    } else if is_enter(byte) {
        Seq::empty()
    } else if is_printable(byte) {
        buf.push(byte as char)
    } else {
        buf
    }
}

/// What feeding `byte` to an editor whose buffer is `buf` returns.
pub open spec fn feed_result(buf: Seq<char>, byte: u8) -> Option<Seq<char>> {
    if is_enter(byte) {
        Some(resolved_line(buf))
    } else {
        None
    }
}

/// The buffer after feeding all of `bytes`, in order.
pub open spec fn feed_all(buf: Seq<char>, bytes: Seq<u8>) -> Seq<char>
    decreases bytes.len(),
{
    if bytes.len() == 0 {
        buf
    } else {
        feed_all(feed_buffer(buf, bytes[0]), bytes.drop_first())
    }
}

/// The lines returned, in order, while feeding all of `bytes`.
pub open spec fn lines_entered(buf: Seq<char>, bytes: Seq<u8>) -> Seq<Seq<char>>
    decreases bytes.len(),
{
    if bytes.len() == 0 {
        Seq::empty()
    } else {
        let now = match feed_result(buf, bytes[0]) {
            Some(line) => seq![line],
            None => Seq::empty(),
        };
        now + lines_entered(feed_buffer(buf, bytes[0]), bytes.drop_first())
    }
}

pub struct LineEditor {
    buf: String,
}

impl View for LineEditor {
    type V = Seq<char>;

    closed spec fn view(&self) -> Seq<char> {
        self.buf@
    }
}

impl LineEditor {
    #[verifier::type_invariant]
    spec fn inv(self) -> bool {
        printable_line(self.buf@)
    }

    pub fn new() -> (res: Self)
        ensures
            res@ == Seq::<char>::empty(),
    {
        LineEditor { buf: String::new() }
    }

    pub fn buffer(&self) -> (res: &str)
        ensures
            res@ == self@,
            printable_line(self@),
    {
        proof {
            use_type_invariant(self);
        }
        self.buf.as_str()
    }

    /// Feed one byte.  Returns `Some(resolved_text)` on Enter, `None` otherwise.
    /// Printable ASCII (0x20–0x7e) appends to the buffer.
    /// 0x7f (backspace/DEL) removes the last character.
    /// 0x0d or 0x0a (CR/LF) flushes the buffer.
    /// All other bytes (control characters) leave the buffer alone.
    pub fn feed(&mut self, byte: u8) -> (res: Option<String>)
        ensures
            final(self)@ == feed_buffer(old(self)@, byte),
            printable_line(final(self)@),
            match res {
                Some(text) => feed_result(old(self)@, byte) == Some(text@),
                None => feed_result(old(self)@, byte) is None,
            },
    {
        proof {
            use_type_invariant(&*self);
        }
        if byte == 0x7f {
            let mut line = String::new();
            std::mem::swap(&mut line, &mut self.buf);
            let _ = string_pop(&mut line);
            self.buf = line;
            None
        } else if byte == 0x0d || byte == 0x0a {
            let mut text = String::new();
            std::mem::swap(&mut text, &mut self.buf);
            if is_blank_printable(&text) {
                let literal = "(empty command)";
                let resolved = literal.to_string();
                Some(resolved)
            } else {
                Some(text)
            }
        } else if 0x20 <= byte && byte <= 0x7e {
            let c = byte as char;
            let mut line = String::new();
            std::mem::swap(&mut line, &mut self.buf);
            string_push(&mut line, c);
            self.buf = line;
            None
        } else {
            None
        }
    }
}

/// Whether a printable line holds nothing but spaces.
fn is_blank_printable(text: &String) -> (res: bool)
    requires
        printable_line(text@),
    ensures
        res == is_blank(text@),
{
    let bytes = text.as_str().as_bytes();
    proof {
        assert(is_ascii_chars(text@));
        is_ascii_chars_encode_utf8(text@);
    }
    let n = bytes.len();
    let mut i: usize = 0;
    while i < n
        invariant
            n == bytes@.len(),
            n == text@.len(),
            i <= n,
            forall|j: int| 0 <= j < n ==> (text@[j] as u8) == #[trigger] bytes@[j],
            printable_line(text@),
            forall|j: int| 0 <= j < i ==> #[trigger] text@[j] == ' ',
        decreases n - i,
    {
        if bytes[i] != 0x20 {
            proof {
                let c = text@[i as int];
                assert(' ' <= c <= '~');
                assert(c as u8 != 0x20);
            }
            return false;
        }
        proof {
            let c = text@[i as int];
            assert(' ' <= c <= '~');
            assert(c as u8 == 0x20);
        }
        i += 1;
    }
    true
}


/// Backspace undoes a printable keystroke: typing a printable character and
/// then backspace leaves the buffer as it was.
pub proof fn law_backspace_undoes_keystroke(buf: Seq<char>, byte: u8)
    requires
        is_printable(byte),
    ensures
        feed_buffer(feed_buffer(buf, byte), 0x7f) == buf,
        feed_result(buf, byte) is None,
        feed_result(feed_buffer(buf, byte), 0x7f) is None,
{
    assert(buf.push(byte as char).drop_last() =~= buf);
}

/// Control bytes other than backspace and Enter are ignored: the buffer is
/// unchanged and nothing is returned.
pub proof fn law_control_bytes_ignored(buf: Seq<char>, byte: u8)
    requires
        !is_printable(byte),
        !is_enter(byte),
        !is_backspace(byte),
    ensures
        feed_buffer(buf, byte) == buf,
        feed_result(buf, byte) is None,
{
}

/// Enter always empties the buffer, and returns the line typed so far, or
/// `(empty command)` when that line is empty or blank.
pub proof fn law_enter_flushes(buf: Seq<char>, byte: u8)
    requires
        is_enter(byte),
    ensures
        feed_buffer(buf, byte) == Seq::<char>::empty(),
        feed_result(buf, byte) == Some(if is_blank(buf) {
            empty_command()
        } else {
            buf
        }),
{
}

/// The characters of printable bytes.
pub open spec fn typed_chars(bytes: Seq<u8>) -> Seq<char> {
    bytes.map_values(|b: u8| b as char)
}

pub open spec fn all_printable(bytes: Seq<u8>) -> bool {
    forall|i: int| 0 <= i < bytes.len() ==> is_printable(#[trigger] bytes[i])
}

/// Typing printable bytes appends them, in order, to the buffer, and
/// returns nothing on the way.
pub proof fn law_typing_appends(buf: Seq<char>, bytes: Seq<u8>)
    requires
        all_printable(bytes),
    ensures
        feed_all(buf, bytes) == buf + typed_chars(bytes),
        lines_entered(buf, bytes) == Seq::<Seq<char>>::empty(),
    decreases bytes.len(),
{
    if bytes.len() > 0 {
        let rest = bytes.drop_first();
        assert(is_printable(bytes[0]));
        assert forall|i: int| 0 <= i < rest.len() implies is_printable(#[trigger] rest[i]) by {
            assert(rest[i] == bytes[i + 1]);
        }
        law_typing_appends(buf.push(bytes[0] as char), rest);
        assert(buf.push(bytes[0] as char) + typed_chars(rest) =~= buf + typed_chars(bytes));
        assert(Seq::<Seq<char>>::empty() + Seq::<Seq<char>>::empty() =~= Seq::<
            Seq<char>,
        >::empty());
    }
}

/// A line typed from an empty buffer and then entered is returned as
/// typed (or as `(empty command)` when blank), as the only line, and the
/// buffer is empty afterwards.
pub proof fn law_typed_line_is_entered(bytes: Seq<u8>, enter: u8)
    requires
        all_printable(bytes),
        is_enter(enter),
    ensures
        lines_entered(Seq::empty(), bytes.push(enter)) == seq![
            resolved_line(typed_chars(bytes)),
        ],
        feed_all(Seq::empty(), bytes.push(enter)) == Seq::<char>::empty(),
    decreases bytes.len(),
{
    lemma_feed_all_push(Seq::empty(), bytes, enter);
    law_typing_appends(Seq::empty(), bytes);
    assert(Seq::<char>::empty() + typed_chars(bytes) =~= typed_chars(bytes));
    assert(Seq::<Seq<char>>::empty() + seq![resolved_line(typed_chars(bytes))] =~= seq![
        resolved_line(typed_chars(bytes)),
    ]);
}

/// Feeding one more byte at the end extends the fold by one step.
pub proof fn lemma_feed_all_push(buf: Seq<char>, bytes: Seq<u8>, last: u8)
    ensures
        feed_all(buf, bytes.push(last)) == feed_buffer(feed_all(buf, bytes), last),
        lines_entered(buf, bytes.push(last)) == lines_entered(buf, bytes) + match feed_result(
            feed_all(buf, bytes),
            last,
        ) {
            Some(line) => seq![line],
            None => Seq::empty(),
        },
    decreases bytes.len(),
{
    if bytes.len() == 0 {
        let one = bytes.push(last);
        assert(one.drop_first() =~= Seq::<u8>::empty());
        assert(one[0] == last);
        assert(feed_all(feed_buffer(buf, last), one.drop_first()) == feed_buffer(buf, last));
        assert(lines_entered(feed_buffer(buf, last), one.drop_first()) =~= Seq::<
            Seq<char>,
        >::empty());
        let now = match feed_result(buf, last) {
            Some(line) => seq![line],
            None => Seq::<Seq<char>>::empty(),
        };
        assert(now + Seq::<Seq<char>>::empty() =~= Seq::<Seq<char>>::empty() + now);
    } else {
        let rest = bytes.drop_first();
        assert(bytes.push(last).drop_first() =~= rest.push(last));
        assert(bytes.push(last)[0] == bytes[0]);
        lemma_feed_all_push(feed_buffer(buf, bytes[0]), rest, last);
        let now = match feed_result(buf, bytes[0]) {
            Some(line) => seq![line],
            None => Seq::<Seq<char>>::empty(),
        };
        let tail = match feed_result(feed_all(buf, bytes), last) {
            Some(line) => seq![line],
            None => Seq::<Seq<char>>::empty(),
        };
        assert(now + (lines_entered(feed_buffer(buf, bytes[0]), rest) + tail) =~= (now
            + lines_entered(feed_buffer(buf, bytes[0]), rest)) + tail);
    }
}


/// Keystrokes fed chunk after chunk to one editor give the same buffer and
/// the same lines, in order, as the whole byte stream fed at once.
pub proof fn law_chunked_feeding(buf: Seq<char>, a: Seq<u8>, b: Seq<u8>)
    ensures
        feed_all(feed_all(buf, a), b) == feed_all(buf, a + b),
        lines_entered(buf, a) + lines_entered(feed_all(buf, a), b) == lines_entered(buf, a + b),
    decreases a.len(),
{
    if a.len() == 0 {
        assert(a + b =~= b);
        assert(Seq::<Seq<char>>::empty() + lines_entered(buf, b) =~= lines_entered(buf, b));
    } else {
        let rest = a.drop_first();
        assert((a + b)[0] == a[0]);
        assert((a + b).drop_first() =~= rest + b);
        let next = feed_buffer(buf, a[0]);
        law_chunked_feeding(next, rest, b);
        let now = match feed_result(buf, a[0]) {
            Some(line) => seq![line],
            None => Seq::<Seq<char>>::empty(),
        };
        assert(now + lines_entered(next, rest) + lines_entered(feed_all(next, rest), b) =~= now + (
        lines_entered(next, rest) + lines_entered(feed_all(next, rest), b)));
    }
}


/// What one keystroke does, byte by byte: a printable byte (0x20 to 0x7e)
/// is appended as that character; 0x7f deletes the last character (if
/// any); CR or LF empties the buffer and returns the line, or
/// `(empty command)` when it holds nothing but spaces; any other byte
/// changes nothing.  Only Enter returns anything.
pub proof fn law_keystrokes(buf: Seq<char>, b: u8)
    ensures
        0x20 <= b <= 0x7e ==> feed_buffer(buf, b) == buf.push(b as char) && feed_result(buf, b)
            is None,
        b == 0x7f && buf.len() > 0 ==> feed_buffer(buf, b) == buf.subrange(0, buf.len() - 1)
            && feed_result(buf, b) is None,
        b == 0x7f && buf.len() == 0 ==> feed_buffer(buf, b) == buf && feed_result(buf, b) is None,
        (b == 0x0d || b == 0x0a) ==> feed_buffer(buf, b).len() == 0 && feed_result(buf, b) == Some(
            if forall|i: int| 0 <= i < buf.len() ==> buf[i] == ' ' {
                "(empty command)"@
            } else {
                buf
            },
        ),
        (b < 0x20 && b != 0x0d && b != 0x0a) || b >= 0x80 ==> feed_buffer(buf, b) == buf
            && feed_result(buf, b) is None,
{
}

} // verus!
