//! The command line: the wrapped command and an optional `--port`.

use vstd::prelude::*;
use vstd::string::StrSliceExecFns;
use crate::json::{decimal_digit, nat_decimal};

verus! {

broadcast use vstd::string::group_string_axioms;

pub struct Args {
    pub command: Vec<String>,
    pub port: Option<u16>,
}

/// Why a command line was refused.
#[derive(Clone, Copy, Debug, PartialEq, Eq, Structural)]
pub enum ArgsError {
    /// `--port` was the last argument.
    MissingPortValue,
    /// The argument after `--port` is not a `u16`.
    InvalidPort,
    /// No argument is left for the command.
    MissingCommand,
}

/// The option flag that sets the port.
pub open spec fn port_flag() -> Seq<char> {
    "--port"@
}

pub open spec fn is_digit(c: char) -> bool {
    '0' <= c <= '9'
}

pub open spec fn all_digits(s: Seq<char>) -> bool {
    forall|i: int| 0 <= i < s.len() ==> is_digit(#[trigger] s[i])
}

/// The value of a string of decimal digits.
pub open spec fn digits_value(s: Seq<char>) -> nat
    decreases s.len(),
{
    if s.len() == 0 {
        0
    } else {
        digits_value(s.drop_last()) * 10 + ((s.last() as nat) - 0x30) as nat
    }
}

/// The digits of a port argument: what follows one optional leading `+`.
pub open spec fn port_digits(s: Seq<char>) -> Seq<char> {
    if s.len() > 0 && s[0] == '+' {
        s.drop_first()
    } else {
        s
    }
}

/// How `str::parse::<u16>` reads a port: an optional `+`, then one or more
/// decimal digits whose value fits in a `u16`.
pub open spec fn parse_port_spec(s: Seq<char>) -> Option<u16> {
    let d = port_digits(s);
    if d.len() > 0 && all_digits(d) && digits_value(d) <= 0xffff {
        Some(digits_value(d) as u16)
    } else {
        None
    }
}

/// The scan of the arguments from index `i` on, with the command words and
/// the port gathered so far.  A later `--port` overrides an earlier one.
pub open spec fn parse_args_from(
    raw: Seq<Seq<char>>,
    i: int,
    command: Seq<Seq<char>>,
    port: Option<u16>,
) -> Result<(Seq<Seq<char>>, Option<u16>), ArgsError>
    decreases raw.len() - i,
{
    if i >= raw.len() {
        if command.len() == 0 {
            Err(ArgsError::MissingCommand)
        } else {
            Ok((command, port))
        }
    } else if raw[i] == port_flag() {
        if i + 1 >= raw.len() {
            Err(ArgsError::MissingPortValue)
        } else {
            match parse_port_spec(raw[i + 1]) {
                None => Err(ArgsError::InvalidPort),
                Some(p) => parse_args_from(raw, i + 2, command, Some(p)),
            }
        }
    } else {
        parse_args_from(raw, i + 1, command.push(raw[i]), port)
    }
}

/// The outcome of parsing a whole command line; its first element, the
/// program's own name, is skipped.
pub open spec fn parse_args_spec(raw: Seq<Seq<char>>) -> Result<
    (Seq<Seq<char>>, Option<u16>),
    ArgsError,
> {
    parse_args_from(raw, 1, Seq::empty(), None)
}

/// The characters of each string.
pub open spec fn string_views(v: Seq<String>) -> Seq<Seq<char>> {
    v.map_values(|s: String| s@)
}

impl ArgsError {
    /// The message printed for this error.
    pub fn message(&self) -> (res: String)
        ensures
            res@ == match self {
                ArgsError::MissingPortValue => "--port requires a value"@,
                ArgsError::InvalidPort => "--port must be a number 1-65535"@,
                ArgsError::MissingCommand => "Usage: ShellyMcShellface <command> [args...] [--port <port>]"@,
            },
    {
        match self {
            ArgsError::MissingPortValue => "--port requires a value".to_string(),
            ArgsError::InvalidPort => "--port must be a number 1-65535".to_string(),
            ArgsError::MissingCommand => "Usage: ShellyMcShellface <command> [args...] [--port <port>]".to_string(),
        }
    }
}

/// Whether `s` is exactly `--port`.
fn is_port_flag(s: &str) -> (res: bool)
    ensures
        res == (s@ == port_flag()),
{
    proof {
        reveal_strlit("--port");
    }
    if s.unicode_len() != 6 {
        return false;
    }
    let r = s.get_char(0) == '-' && s.get_char(1) == '-' && s.get_char(2) == 'p' && s.get_char(3)
        == 'o' && s.get_char(4) == 'r' && s.get_char(5) == 't';
    assert(r ==> s@ =~= port_flag());
    r
}

proof fn lemma_digits_value_push(s: Seq<char>, c: char)
    ensures
        digits_value(s.push(c)) == digits_value(s) * 10 + ((c as nat) - 0x30) as nat,
{
    assert(s.push(c).drop_last() =~= s);
}

/// Parses a port as `str::parse::<u16>` does.
pub fn parse_port(s: &str) -> (res: Option<u16>)
    ensures
        res == parse_port_spec(s@),
{
    let n = s.unicode_len();
    let start: usize = if n > 0 && s.get_char(0) == '+' {
        1
    } else {
        0
    };
    let ghost d = port_digits(s@);
    assert(d =~= s@.subrange(start as int, n as int));
    if start == n {
        return None;
    }
    // The value read so far, capped at 65536 (one more than any port).
    let mut value: u32 = 0;
    let mut i = start;
    while i < n
        invariant
            n == s@.len(),
            start <= i <= n,
            d == port_digits(s@),
            d =~= s@.subrange(start as int, n as int),
            all_digits(s@.subrange(start as int, i as int)),
            value as nat == if digits_value(s@.subrange(start as int, i as int)) <= 0xffff {
                digits_value(s@.subrange(start as int, i as int))
            } else {
                0x10000
            },
        decreases n - i,
    {
        let c = s.get_char(i);
        if !('0' <= c && c <= '9') {
            assert(d[i - start] == c);
            assert(!is_digit(d[i - start]));
            return None;
        }
        let digit = (c as u32) - 0x30;
        let ghost prefix = s@.subrange(start as int, i as int);
        proof {
            assert(s@.subrange(start as int, i + 1) =~= prefix.push(c));
            lemma_digits_value_push(prefix, c);
            assert(digits_value(prefix) * 10 + digit >= digits_value(prefix)) by (nonlinear_arith);
            if digits_value(prefix) > 0xffff {
                assert(digits_value(prefix) * 10 + digit > 0xffff) by (nonlinear_arith)
                    requires
                        digits_value(prefix) > 0xffff,
                ;
            }
        }
        let next = value * 10 + digit;
        value = if next > 0xffff {
            0x10000
        } else {
            next
        };
        i += 1;
    }
    if value > 0xffff {
        None
    } else {
        Some(value as u16)
    }
}

/// Reads the command line: every argument after the program's name is a
/// word of the command, except `--port` and the value after it.
pub fn parse_args(raw: Vec<String>) -> (res: Result<Args, ArgsError>)
    ensures
        match res {
            Ok(args) => parse_args_spec(string_views(raw@)) == Ok::<
                (Seq<Seq<char>>, Option<u16>),
                ArgsError,
            >((string_views(args.command@), args.port)),
            Err(e) => parse_args_spec(string_views(raw@)) == Err::<
                (Seq<Seq<char>>, Option<u16>),
                ArgsError,
            >(e),
        },
{
    let ghost views = string_views(raw@);
    let mut command: Vec<String> = Vec::new();
    let mut port: Option<u16> = None;
    let mut i: usize = 1;
    let n = raw.len();
    assert(string_views(command@) =~= Seq::<Seq<char>>::empty());
    while i < n
        invariant
            n == raw@.len(),
            views == string_views(raw@),
            1 <= i,
            parse_args_from(views, i as int, string_views(command@), port) == parse_args_spec(
                views,
            ),
        decreases n - i,
    {
        let ghost cmd0 = command@;
        if is_port_flag(raw[i].as_str()) {
            if i + 1 >= n {
                return Err(ArgsError::MissingPortValue);
            }
            match parse_port(raw[i + 1].as_str()) {
                None => {
                    return Err(ArgsError::InvalidPort);
                },
                Some(p) => {
                    port = Some(p);
                },
            }
            i += 2;
        } else {
            command.push(raw[i].clone());
            assert(string_views(command@) =~= string_views(cmd0).push(views[i as int]));
            i += 1;
        }
    }
    if command.len() == 0 {
        return Err(ArgsError::MissingCommand);
    }
    Ok(Args { command, port })
}

/// The last port of the scan window when no port is given: `start` and
/// the 99 after it, as far as `u16` goes.
pub open spec fn last_candidate(start: u16) -> int {
    if start + 99 <= 0xffff {
        start + 99
    } else {
        0xffff
    }
}

/// What the port scan does after probing `port`: use it, probe the next
/// one, or give up.
#[derive(Clone, Copy, Debug, PartialEq, Eq, Structural)]
pub enum PortScan {
    /// The probed port was free: listen on it.
    Found(u16),
    /// The probed port was taken: probe this one next.
    Probe(u16),
    /// The probed port was taken and the window is used up.
    Exhausted,
}

pub open spec fn port_scan_step_spec(start: u16, port: u16, free: bool) -> PortScan {
    if free {
        PortScan::Found(port)
    } else if start <= port < last_candidate(start) {
        PortScan::Probe((port + 1) as u16)
    } else {
        PortScan::Exhausted
    }
}

/// One step of the search for a free port, started by probing `start`:
/// given whether the port just probed could be bound, the next move.
pub fn port_scan_step(start: u16, port: u16, free: bool) -> (res: PortScan)
    ensures
        res == port_scan_step_spec(start, port, free),
{
    if free {
        PortScan::Found(port)
    } else {
        let last = start.saturating_add(99);
        if start <= port && port < last {
            PortScan::Probe(port + 1)
        } else {
            PortScan::Exhausted
        }
    }
}

/// Where the scan ends when it probes `port` and goes on by
/// `port_scan_step`, with `free` telling which ports can be bound.
pub open spec fn port_scan_from(start: u16, port: int, free: spec_fn(u16) -> bool) -> Option<u16>
    decreases last_candidate(start) + 1 - port,
{
    if port < start || port > last_candidate(start) {
        None
    } else {
        match port_scan_step_spec(start, port as u16, free(port as u16)) {
            PortScan::Found(p) => Some(p),
            PortScan::Probe(next) => if next == port + 1 {
                port_scan_from(start, next as int, free)
            } else {
                None
            },
            PortScan::Exhausted => None,
        }
    }
}

proof fn lemma_port_scan_from(start: u16, port: int, free: spec_fn(u16) -> bool)
    requires
        start <= port <= last_candidate(start),
    ensures
        match port_scan_from(start, port, free) {
            Some(p) => port <= p <= last_candidate(start) && free(p) && forall|q: int|
                port <= q < p ==> !free(#[trigger] (q as u16)),
            None => forall|q: int| port <= q <= last_candidate(start) ==> !free(#[trigger] (q as u16)),
        },
    decreases last_candidate(start) + 1 - port,
{
    if !free(port as u16) && port < last_candidate(start) {
        lemma_port_scan_from(start, port + 1, free);
        assert(((port + 1) as u16) == port + 1);
        match port_scan_from(start, port + 1, free) {
            Some(p) => {
                assert forall|q: int| port <= q < p implies !free(#[trigger] (q as u16)) by {
                    if q == port {
                    }
                }
            },
            None => {
                assert forall|q: int| port <= q <= last_candidate(start) implies !free(
                    #[trigger] (q as u16),
                ) by {
                    if q == port {
                    }
                }
            },
        }
    }
}

/// The scan started at `start` listens on the least free port among
/// `start` and the 99 after it (as far as `u16` goes), or gives up when
/// none of them is free.
pub proof fn law_least_free_port(start: u16, free: spec_fn(u16) -> bool)
    ensures
        match port_scan_from(start, start as int, free) {
            Some(p) => start <= p <= last_candidate(start) && free(p) && forall|q: int|
                start <= q < p ==> !free(#[trigger] (q as u16)),
            None => forall|q: int|
                start <= q <= last_candidate(start) ==> !free(#[trigger] (q as u16)),
        },
{
    lemma_port_scan_from(start, start as int, free);
}

proof fn lemma_decimal_digits(n: nat)
    ensures
        nat_decimal(n).len() > 0,
        all_digits(nat_decimal(n)),
        digits_value(nat_decimal(n)) == n,
    decreases n,
{
    let d = (n % 10) as int;
    assert(0x30 <= 0x30 + d <= 0x39);
    let c = decimal_digit(d);
    assert('0' <= c <= '9');
    assert(c as nat == 0x30 + d);
    if n < 10 {
        let s = nat_decimal(n);
        assert(s =~= Seq::<char>::empty().push(c));
        assert(s.drop_last() =~= Seq::<char>::empty());
        assert(s.last() == c);
        assert(digits_value(Seq::<char>::empty()) == 0);
        assert(digits_value(s) == digits_value(s.drop_last()) * 10 + ((s.last() as nat) - 0x30) as nat);
        assert(n % 10 == n);
    } else {
        lemma_decimal_digits(n / 10);
        let prefix = nat_decimal(n / 10);
        let s = nat_decimal(n);
        assert((n / 10) * 10 + n % 10 == n) by (nonlinear_arith);
        assert(s =~= prefix.push(c));
        assert(s.drop_last() =~= prefix);
        assert(s.last() == c);
        assert(digits_value(s) == digits_value(prefix) * 10 + ((c as nat) - 0x30) as nat);
        assert forall|i: int| 0 <= i < s.len() implies is_digit(#[trigger] s[i]) by {
            if i < prefix.len() {
                assert(s[i] == prefix[i]);
            }
        }
    }
}

/// Every port, written in decimal (with or without a leading `+`), is
/// accepted as that port.
pub proof fn law_decimal_ports_accepted(p: u16)
    ensures
        parse_port_spec(nat_decimal(p as nat)) == Some(p),
        parse_port_spec(seq!['+'] + nat_decimal(p as nat)) == Some(p),
{
    let s = nat_decimal(p as nat);
    lemma_decimal_digits(p as nat);
    assert(is_digit(s[0]));
    assert(port_digits(s) == s);
    let t = seq!['+'] + s;
    assert(t.drop_first() =~= s);
}


pub open spec fn no_port_flag(words: Seq<Seq<char>>) -> bool {
    forall|j: int| 0 <= j < words.len() ==> #[trigger] words[j] != port_flag()
}

proof fn lemma_scan_words(
    raw: Seq<Seq<char>>,
    i: int,
    j: int,
    command: Seq<Seq<char>>,
    port: Option<u16>,
)
    requires
        1 <= i <= j <= raw.len(),
        forall|k: int| i <= k < j ==> #[trigger] raw[k] != port_flag(),
    ensures
        parse_args_from(raw, i, command, port) == parse_args_from(
            raw,
            j,
            command + raw.subrange(i, j),
            port,
        ),
    decreases j - i,
{
    if i < j {
        assert(raw[i] != port_flag());
        lemma_scan_words(raw, i + 1, j, command.push(raw[i]), port);
        assert(command.push(raw[i]) + raw.subrange(i + 1, j) =~= command + raw.subrange(i, j));
    } else {
        assert(command + raw.subrange(i, j) =~= command);
    }
}

/// Without `--port`, every argument after the program's name is a word of
/// the command, in order, and there is no port; with no such argument the
/// line is refused for a missing command.
pub proof fn law_plain_command_line(prog: Seq<char>, words: Seq<Seq<char>>)
    requires
        no_port_flag(words),
    ensures
        parse_args_spec(seq![prog] + words) == if words.len() > 0 {
            Ok::<(Seq<Seq<char>>, Option<u16>), ArgsError>((words, None))
        } else {
            Err(ArgsError::MissingCommand)
        },
{
    let raw = seq![prog] + words;
    assert forall|k: int| 1 <= k < raw.len() implies #[trigger] raw[k] != port_flag() by {
        assert(raw[k] == words[k - 1]);
    }
    lemma_scan_words(raw, 1, raw.len() as int, Seq::empty(), None);
    assert(Seq::<Seq<char>>::empty() + raw.subrange(1, raw.len() as int) =~= words);
}

/// `--port <value>` may stand anywhere after the program's name: the words
/// around it are the command, in order, and the port is the value read as
/// `str::parse::<u16>` reads it; a value that does not parse refuses the
/// line.
pub proof fn law_port_flag_anywhere(
    prog: Seq<char>,
    before: Seq<Seq<char>>,
    value: Seq<char>,
    after: Seq<Seq<char>>,
)
    requires
        no_port_flag(before),
        no_port_flag(after),
        before.len() + after.len() > 0,
    ensures
        parse_args_spec(seq![prog] + before + seq![port_flag(), value] + after) == match parse_port_spec(
            value,
        ) {
            Some(p) => Ok::<(Seq<Seq<char>>, Option<u16>), ArgsError>((before + after, Some(p))),
            None => Err(ArgsError::InvalidPort),
        },
{
    let raw = seq![prog] + before + seq![port_flag(), value] + after;
    let f: int = 1 + before.len() as int;
    assert forall|k: int| 1 <= k < f implies #[trigger] raw[k] != port_flag() by {
        assert(raw[k] == before[k - 1]);
    }
    lemma_scan_words(raw, 1, f, Seq::empty(), None);
    assert(Seq::<Seq<char>>::empty() + raw.subrange(1, f) =~= before);
    assert(raw[f] == port_flag());
    assert(raw[f + 1] == value);
    if let Some(p) = parse_port_spec(value) {
        assert forall|k: int| f + 2 <= k < raw.len() implies #[trigger] raw[k] != port_flag() by {
            assert(raw[k] == after[k - f - 2]);
        }
        lemma_scan_words(raw, f + 2, raw.len() as int, before, Some(p));
        assert(before + raw.subrange(f + 2, raw.len() as int) =~= before + after);
    }
}

/// A `--port` with nothing after it refuses the line, even when a command
/// came before it.
pub proof fn law_port_flag_needs_value(prog: Seq<char>, before: Seq<Seq<char>>)
    requires
        no_port_flag(before),
    ensures
        parse_args_spec(seq![prog] + before + seq![port_flag()]) == Err::<
            (Seq<Seq<char>>, Option<u16>),
            ArgsError,
        >(ArgsError::MissingPortValue),
{
    let raw = seq![prog] + before + seq![port_flag()];
    let f: int = 1 + before.len() as int;
    assert forall|k: int| 1 <= k < f implies #[trigger] raw[k] != port_flag() by {
        assert(raw[k] == before[k - 1]);
    }
    lemma_scan_words(raw, 1, f, Seq::empty(), None);
    assert(raw[f] == port_flag());
}

proof fn lemma_name_ignored(
    a: Seq<Seq<char>>,
    b: Seq<Seq<char>>,
    i: int,
    command: Seq<Seq<char>>,
    port: Option<u16>,
)
    requires
        a.len() == b.len(),
        1 <= i,
        forall|k: int| 1 <= k < a.len() ==> a[k] == b[k],
    ensures
        parse_args_from(a, i, command, port) == parse_args_from(b, i, command, port),
    decreases a.len() - i,
{
    if i < a.len() {
        lemma_name_ignored(a, b, i + 1, command.push(a[i]), port);
        if i + 2 <= a.len() {
            lemma_name_ignored(a, b, i + 2, command, port);
            if let Some(p) = parse_port_spec(a[i + 1]) {
                lemma_name_ignored(a, b, i + 2, command, Some(p));
            }
        }
    }
}

/// The first argument, the program's own name, is skipped whatever it is
/// (even `--port`).
pub proof fn law_program_name_skipped(x: Seq<char>, y: Seq<char>, rest: Seq<Seq<char>>)
    ensures
        parse_args_spec(seq![x] + rest) == parse_args_spec(seq![y] + rest),
{
    let a = seq![x] + rest;
    let b = seq![y] + rest;
    assert forall|k: int| 1 <= k < a.len() implies a[k] == b[k] by {
        assert(a[k] == rest[k - 1]);
        assert(b[k] == rest[k - 1]);
    }
    lemma_name_ignored(a, b, 1, Seq::empty(), None);
}


/* The command line, described position by position. */

/// The arguments after the program's name.
pub open spec fn arg_tokens(raw: Seq<Seq<char>>) -> Seq<Seq<char>> {
    if raw.len() == 0 {
        Seq::empty()
    } else {
        raw.skip(1)
    }
}

/// The token at `j` is the value of a `--port`: the token before it is a
/// `--port` that is not itself a value.
pub open spec fn is_port_value(t: Seq<Seq<char>>, j: int) -> bool
    decreases j,
{
    if j <= 0 {
        false
    } else {
        t[j - 1] == port_flag() && !is_port_value(t, j - 1)
    }
}

/// The token at `j` is a `--port` flag (and not the value of another).
pub open spec fn is_flag_at(t: Seq<Seq<char>>, j: int) -> bool {
    0 <= j < t.len() && t[j] == port_flag() && !is_port_value(t, j)
}

/// The token at `j` is a word of the command.
pub open spec fn is_word_at(t: Seq<Seq<char>>, j: int) -> bool {
    0 <= j < t.len() && t[j] != port_flag() && !is_port_value(t, j)
}

/// The flag at `f` has a value, and it parses as a port.
pub open spec fn flag_value_ok(t: Seq<Seq<char>>, f: int) -> bool {
    f + 1 < t.len() && parse_port_spec(t[f + 1]) is Some
}

/// The words from position `j` on, in order.
pub open spec fn words_from(t: Seq<Seq<char>>, j: int) -> Seq<Seq<char>>
    decreases t.len() - j,
{
    if j < 0 || j >= t.len() {
        Seq::empty()
    } else if is_word_at(t, j) {
        seq![t[j]] + words_from(t, j + 1)
    } else {
        words_from(t, j + 1)
    }
}

proof fn lemma_words_from_nonempty(t: Seq<Seq<char>>, j: int)
    requires
        0 <= j <= t.len(),
    ensures
        words_from(t, j).len() > 0 <==> exists|w: int| j <= w && #[trigger] is_word_at(t, w),
    decreases t.len() - j,
{
    if j < t.len() {
        lemma_words_from_nonempty(t, j + 1);
        if words_from(t, j).len() == 0 {
            assert forall|w: int| j <= w implies !#[trigger] is_word_at(t, w) by {
                if w == j {
                } else {
                    assert(j + 1 <= w);
                }
            }
        } else if !is_word_at(t, j) {
            let w = choose|w: int| j + 1 <= w && #[trigger] is_word_at(t, w);
            assert(j <= w && is_word_at(t, w));
        }
    }
}

proof fn lemma_scan_positions(
    raw: Seq<Seq<char>>,
    j: int,
    command: Seq<Seq<char>>,
    port: Option<u16>,
)
    requires
        raw.len() >= 1,
        0 <= j <= raw.len() - 1,
        !is_port_value(arg_tokens(raw), j),
    ensures
        ({
            let t = arg_tokens(raw);
            let r = parse_args_from(raw, j + 1, command, port);
            &&& (r is Ok <==> (forall|f: int| j <= f && #[trigger] is_flag_at(t, f) ==> flag_value_ok(t, f))
                && (command + words_from(t, j)).len() > 0)
            &&& (r is Ok ==> r->Ok_0.0 == command + words_from(t, j))
            &&& (r is Ok && (forall|f: int| j <= f ==> !#[trigger] is_flag_at(t, f))
                ==> r->Ok_0.1 == port)
            &&& (r is Ok && (exists|f: int| j <= f && #[trigger] is_flag_at(t, f)) ==> exists|f: int|
                j <= f && #[trigger] is_flag_at(t, f) && (forall|g: int| f < g ==> !#[trigger] is_flag_at(t, g))
                    && r->Ok_0.1 == parse_port_spec(t[f + 1]))
        }),
    decreases raw.len() - j,
{
    let t = arg_tokens(raw);
    assert(t.len() == raw.len() - 1);
    if j == t.len() {
        assert(words_from(t, j) =~= Seq::<Seq<char>>::empty());
        assert(command + words_from(t, j) =~= command);
    } else {
        assert(raw[j + 1] == t[j]);
        if t[j] == port_flag() {
            assert(is_flag_at(t, j));
            if j + 1 < t.len() {
                assert(raw[j + 2] == t[j + 1]);
                assert(is_port_value(t, j + 1));
            }
            if j + 1 < t.len() && parse_port_spec(t[j + 1]) is Some {
                let p = parse_port_spec(t[j + 1])->Some_0;
                assert(flag_value_ok(t, j));
                assert(!is_port_value(t, j + 2));
                lemma_scan_positions(raw, j + 2, command, Some(p));
                assert(!is_word_at(t, j));
                assert(!is_word_at(t, j + 1));
                assert(!is_flag_at(t, j + 1));
                assert(words_from(t, j) == words_from(t, j + 1));
                assert(words_from(t, j + 1) == words_from(t, j + 2));
                let r = parse_args_from(raw, j + 1, command, port);
                assert(r == parse_args_from(raw, j + 3, command, Some(p)));
                assert((forall|f: int| j <= f && #[trigger] is_flag_at(t, f) ==> flag_value_ok(t, f))
                    <==> (forall|f: int| j + 2 <= f && #[trigger] is_flag_at(t, f) ==> flag_value_ok(
                    t,
                    f,
                ))) by {
                    if forall|f: int| j + 2 <= f && #[trigger] is_flag_at(t, f) ==> flag_value_ok(t, f) {
                        assert forall|f: int| j <= f && #[trigger] is_flag_at(t, f) implies flag_value_ok(
                            t,
                            f,
                        ) by {
                            if f == j + 1 {
                                assert(!is_flag_at(t, j + 1));
                            }
                        }
                    }
                }
                if r is Ok {
                    if forall|f: int| j + 2 <= f ==> !#[trigger] is_flag_at(t, f) {
                        assert forall|g: int| j < g implies !#[trigger] is_flag_at(t, g) by {
                            if g == j + 1 {
                                assert(!is_flag_at(t, j + 1));
                            } else {
                                assert(j + 2 <= g);
                            }
                        }
                        assert(j <= j && is_flag_at(t, j) && (forall|g: int| j < g ==> !#[trigger] is_flag_at(t, g))
                            && r->Ok_0.1 == parse_port_spec(t[j + 1]));
                    } else {
                        let f0 = choose|f: int| j + 2 <= f && #[trigger] is_flag_at(t, f);
                        assert(j + 2 <= f0 && is_flag_at(t, f0));
                        let f = choose|f: int|
                            j + 2 <= f && #[trigger] is_flag_at(t, f) && (forall|g: int| f < g ==> !#[trigger] is_flag_at(t, g))
                                && r->Ok_0.1 == parse_port_spec(t[f + 1]);
                        assert(j <= f && is_flag_at(t, f));
                    }
                }
            } else {
                assert(!flag_value_ok(t, j));
            }
        } else {
            assert(is_word_at(t, j));
            assert(!is_port_value(t, j + 1));
            lemma_scan_positions(raw, j + 1, command.push(t[j]), port);
            assert(command.push(t[j]) + words_from(t, j + 1) =~= command + words_from(t, j));
            assert(!is_flag_at(t, j));
            let r = parse_args_from(raw, j + 1, command, port);
            assert((forall|f: int| j <= f && #[trigger] is_flag_at(t, f) ==> flag_value_ok(t, f))
                <==> (forall|f: int| j + 1 <= f && #[trigger] is_flag_at(t, f) ==> flag_value_ok(t, f)))
                by {
                if forall|f: int| j + 1 <= f && #[trigger] is_flag_at(t, f) ==> flag_value_ok(t, f) {
                    assert forall|f: int| j <= f && #[trigger] is_flag_at(t, f) implies flag_value_ok(
                        t,
                        f,
                    ) by {
                        if f == j {
                            assert(!is_flag_at(t, j));
                        }
                    }
                }
            }
            if r is Ok {
                if forall|f: int| j <= f ==> !#[trigger] is_flag_at(t, f) {
                    assert forall|f: int| j + 1 <= f implies !#[trigger] is_flag_at(t, f) by {}
                }
                if exists|f: int| j <= f && #[trigger] is_flag_at(t, f) {
                    let f0 = choose|f: int| j <= f && #[trigger] is_flag_at(t, f);
                    assert(f0 != j);
                    assert(j + 1 <= f0 && is_flag_at(t, f0));
                    let f = choose|f: int|
                        j + 1 <= f && #[trigger] is_flag_at(t, f) && (forall|g: int| f < g ==> !#[trigger] is_flag_at(t, g))
                            && r->Ok_0.1 == parse_port_spec(t[f + 1]);
                    assert(j <= f && is_flag_at(t, f));
                }
            }
        }
    }
}

/// The command line read position by position: after the program's name,
/// a `--port` that is not itself the value of a `--port` is a flag and the
/// token after it is its value; every other token is a word of the
/// command.  The line is accepted exactly when every flag has a value that
/// parses as a port and at least one word remains; the command is then the
/// words in order, and the port is the value of the last flag, or none
/// when there is no flag.
pub proof fn law_parse_args_positions(raw: Seq<Seq<char>>)
    ensures
        ({
            let t = arg_tokens(raw);
            let r = parse_args_spec(raw);
            &&& (r is Ok <==> (forall|f: int| #[trigger] is_flag_at(t, f) ==> flag_value_ok(t, f))
                && exists|w: int| #[trigger] is_word_at(t, w))
            &&& (r is Ok ==> r->Ok_0.0 == words_from(t, 0))
            &&& (r is Ok && (forall|f: int| !#[trigger] is_flag_at(t, f)) ==> r->Ok_0.1 == None::<u16>)
            &&& (r is Ok && (exists|f: int| #[trigger] is_flag_at(t, f)) ==> exists|f: int|
                #[trigger] is_flag_at(t, f) && (forall|g: int| f < g ==> !#[trigger] is_flag_at(t, g))
                    && r->Ok_0.1 == parse_port_spec(t[f + 1]))
        }),
{
    let t = arg_tokens(raw);
    if raw.len() == 0 {
        assert(parse_args_spec(raw) == Err::<(Seq<Seq<char>>, Option<u16>), ArgsError>(
            ArgsError::MissingCommand,
        ));
        assert forall|w: int| !#[trigger] is_word_at(t, w) by {}
    } else {
        lemma_scan_positions(raw, 0, Seq::empty(), None);
        lemma_words_from_nonempty(t, 0);
        assert(Seq::<Seq<char>>::empty() + words_from(t, 0) =~= words_from(t, 0));
        assert forall|f: int| #[trigger] is_flag_at(t, f) implies 0 <= f by {}
        assert forall|w: int| #[trigger] is_word_at(t, w) implies 0 <= w by {}
    }
}

} // verus!
