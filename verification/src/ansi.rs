//! The escape-sequence filter applied to every line of child output.
//!
//! SGR sequences (colour, bold, reset: CSI sequences whose final byte is
//! `m`) pass through untouched so that the browser can render them.  Every
//! other escape sequence is removed; the cursor movements that rewrite the
//! current line become a carriage return, and the remaining CSI sequences
//! become the private-use placeholder U+E000.
//!
//! The filter works on bytes.  Its meaning is given by a tokenizer over the
//! input bytes: `token_end(b, i)` is where the token that starts at `i` ends
//! and `token_image(b, i)` is what the token contributes to the output.

use vstd::prelude::*;
use vstd::utf8::*;
use crate::ansi_laws::law_output_is_utf8;
use crate::strings::string_from_utf8;

verus! {

/// The escape byte that starts every sequence.
pub open spec fn esc() -> u8 {
    0x1bu8
}

/// ECMA-48 parameter bytes: `0-9 : ; < = > ?`.
pub open spec fn is_param_byte(x: u8) -> bool {
    0x30 <= x <= 0x3f
}

/// ECMA-48 intermediate bytes: space and `! " # $ % & ' ( ) * + , - . /`.
pub open spec fn is_intermediate_byte(x: u8) -> bool {
    0x20 <= x <= 0x2f
}

/// ECMA-48 final bytes of a CSI sequence.
pub open spec fn is_final_byte(x: u8) -> bool {
    0x40 <= x <= 0x7e
}

/// The UTF-8 bytes of U+E000, the placeholder for a removed CSI sequence.
pub open spec fn placeholder_bytes() -> Seq<u8> {
    seq![0xeeu8, 0x80u8, 0x80u8]
}

/// The first index at or after `i` whose byte is not in `lo..=hi`
/// (or the end of `b`).
pub open spec fn run_end(b: Seq<u8>, i: int, lo: u8, hi: u8) -> int
    decreases b.len() - i,
{
    if 0 <= i < b.len() && lo <= b[i] <= hi {
        run_end(b, i + 1, lo, hi)
    } else {
        i
    }
}

/// End of an OSC body that starts at `i`: just past the first BEL, or past
/// the first `ESC \`, or the end of the input when neither comes.
pub open spec fn osc_end(b: Seq<u8>, i: int) -> int
    decreases b.len() - i,
{
    if i < 0 || i >= b.len() {
        i
    } else if b[i] == 0x07 {
        i + 1
    } else if b[i] == esc() && i + 1 < b.len() && b[i + 1] == 0x5c {
        i + 2
    } else {
        osc_end(b, i + 1)
    }
}

/// For a CSI sequence starting at `i` (`ESC [`): the end of its parameter bytes.
pub open spec fn csi_params_end(b: Seq<u8>, i: int) -> int {
    run_end(b, i + 2, 0x30, 0x3f)
}

/// For a CSI sequence starting at `i`: the index of its final byte, if the
/// byte after the parameter and intermediate bytes is one.
pub open spec fn csi_final_at(b: Seq<u8>, i: int) -> int {
    run_end(b, csi_params_end(b, i), 0x20, 0x2f)
}

pub open spec fn csi_complete(b: Seq<u8>, i: int) -> bool {
    let f = csi_final_at(b, i);
    f < b.len() && is_final_byte(b[f])
}

/// End of the CSI sequence starting at `i`.  An incomplete sequence (one
/// whose final byte is missing or invalid) ends before the offending byte.
pub open spec fn csi_end(b: Seq<u8>, i: int) -> int {
    if csi_complete(b, i) {
        csi_final_at(b, i) + 1
    } else {
        csi_final_at(b, i)
    }
}

/// The parameter bytes of the CSI sequence starting at `i`.
pub open spec fn csi_params(b: Seq<u8>, i: int) -> Seq<u8> {
    b.subrange(i + 2, csi_params_end(b, i))
}

/// What a complete CSI sequence starting at `i` becomes in the output.
pub open spec fn csi_image(b: Seq<u8>, i: int) -> Seq<u8> {
    let f = csi_final_at(b, i);
    let final_byte = b[f];
    let params = csi_params(b, i);
    if !csi_complete(b, i) {
        Seq::empty()
    } else if final_byte == 0x6d {
        // SGR (`m`): the whole sequence is kept.
        b.subrange(i, f + 1)
    } else if final_byte == 0x47 && (params.len() == 0 || params =~= seq![0x30u8]
        || params =~= seq![0x31u8]) {
        // Cursor to column 1 (`G`, `0G`, `1G`).
        seq![0x0du8]
    } else if final_byte == 0x4b && params =~= seq![0x32u8] {
        // Erase entire line (`2K`).
        seq![0x0du8]
    } else if final_byte == 0x48 {
        // Cursor absolute position (`H`).
        seq![0x0du8]
    } else {
        placeholder_bytes()
    }
}

/// For an `ESC` at `i` followed by a byte other than `[` and `]`: the end of
/// the character that byte starts.  An ASCII byte is a character of its
/// own; a multi-byte character takes its continuation bytes with it, so the
/// whole character goes together with the `ESC`.
pub open spec fn esc_char_end(b: Seq<u8>, i: int) -> int {
    if b[i + 1] >= 0x80 {
        run_end(b, i + 2, 0x80, 0xbf)
    } else {
        i + 2
    }
}

/// Where the token starting at `i` ends.
pub open spec fn token_end(b: Seq<u8>, i: int) -> int {
    if b[i] != esc() {
        i + 1
    } else if i + 1 >= b.len() {
        i + 1
    } else if b[i + 1] == 0x5b {
        csi_end(b, i)
    } else if b[i + 1] == 0x5d {
        osc_end(b, i + 2)
    } else {
        esc_char_end(b, i)
    }
}

/// What the token starting at `i` contributes to the output.
pub open spec fn token_image(b: Seq<u8>, i: int) -> Seq<u8> {
    if b[i] != esc() {
        seq![b[i]]
    } else if i + 1 < b.len() && b[i + 1] == 0x5b {
        csi_image(b, i)
    } else {
        Seq::empty()
    }
}

/// The filtered bytes of the input from index `i` on.
pub open spec fn strip_from(b: Seq<u8>, i: int) -> Seq<u8>
    decreases b.len() - i,
{
    if i < 0 || i >= b.len() {
        Seq::empty()
    } else {
        proof {
            lemma_token_end_advances(b, i);
        }
        token_image(b, i) + strip_from(b, token_end(b, i))
    }
}

/// The filtered bytes of a whole input.
pub open spec fn strip_bytes(b: Seq<u8>) -> Seq<u8> {
    strip_from(b, 0)
}

/// The characters that `strip_non_sgr` returns for the input characters
/// `s`: the filtered bytes of their UTF-8 form, decoded (they are always
/// UTF-8: see `law_output_is_utf8`).
pub open spec fn strip_non_sgr_spec(s: Seq<char>) -> Seq<char> {
    decode_utf8(strip_bytes(encode_utf8(s)))
}

pub proof fn lemma_run_end_bounds(b: Seq<u8>, i: int, lo: u8, hi: u8)
    ensures
        i <= run_end(b, i, lo, hi),
        0 <= i <= b.len() ==> run_end(b, i, lo, hi) <= b.len(),
    decreases b.len() - i,
{
    if 0 <= i < b.len() && lo <= b[i] <= hi {
        lemma_run_end_bounds(b, i + 1, lo, hi);
    }
}

pub proof fn lemma_osc_end_bounds(b: Seq<u8>, i: int)
    ensures
        i <= osc_end(b, i),
        0 <= i <= b.len() ==> osc_end(b, i) <= b.len(),
    decreases b.len() - i,
{
    if 0 <= i < b.len() && b[i] != 0x07 && !(b[i] == esc() && i + 1 < b.len() && b[i + 1]
        == 0x5c) {
        lemma_osc_end_bounds(b, i + 1);
    }
}

/// Every token is non-empty and lies inside the input.
pub proof fn lemma_token_end_advances(b: Seq<u8>, i: int)
    requires
        0 <= i < b.len(),
    ensures
        i < token_end(b, i) <= b.len(),
{
    lemma_run_end_bounds(b, i + 2, 0x30, 0x3f);
    lemma_run_end_bounds(b, i + 2, 0x80, 0xbf);
    if i + 2 <= b.len() {
        lemma_run_end_bounds(b, csi_params_end(b, i), 0x20, 0x2f);
        lemma_osc_end_bounds(b, i + 2);
    }
}

proof fn lemma_strip_step(b: Seq<u8>, i: int)
    requires
        0 <= i < b.len(),
    ensures
        strip_from(b, i) == token_image(b, i) + strip_from(b, token_end(b, i)),
{
}

/// Strip all ANSI escape sequences except SGR (colour/bold — sequences
/// ending in `m`).  SGR sequences are passed through intact.
///
/// The output is built as bytes: bytes that are not part of an escape
/// sequence are copied verbatim, the kept sequences are ASCII, and an `ESC`
/// followed by a multi-byte character is dropped together with the whole
/// character, so the result is always valid UTF-8.
pub fn strip_non_sgr(input: &str) -> (res: String)
    ensures
        res@ == strip_non_sgr_spec(input@),
{
    let bytes = input.as_bytes();
    let ghost b = bytes@;
    let n = bytes.len();
    let mut out: Vec<u8> = Vec::with_capacity(n);
    let mut i: usize = 0;

    while i < n
        invariant
            b == bytes@,
            b == encode_utf8(input@),
            n == b.len(),
            i <= n,
            out@ + strip_from(b, i as int) == strip_bytes(b),
        decreases n - i,
    {
        let ghost i0 = i as int;
        let ghost out0 = out@;
        proof {
            lemma_strip_step(b, i0);
            lemma_token_end_advances(b, i0);
        }
        if bytes[i] != 0x1b {
            out.push(bytes[i]);
            i += 1;
            assert(out@ + strip_from(b, i as int) =~= out0 + strip_from(b, i0));
        } else if i + 1 >= n {
            i += 1;
            assert(out@ + strip_from(b, i as int) =~= out0 + strip_from(b, i0));
        } else if bytes[i + 1] == 0x5b {
            // CSI: ESC [ <params> <intermediates> <final>
            i += 2;
            let param_start = i;
            while i < n && 0x30 <= bytes[i] && bytes[i] <= 0x3f
                invariant
                    b == bytes@,
                    n == b.len(),
                    param_start <= i <= n,
                    run_end(b, i as int, 0x30, 0x3f) == run_end(b, param_start as int, 0x30, 0x3f),
                decreases n - i,
            {
                i += 1;
            }
            let param_end = i;
            assert(param_end == csi_params_end(b, i0));
            while i < n && 0x20 <= bytes[i] && bytes[i] <= 0x2f
                invariant
                    b == bytes@,
                    n == b.len(),
                    param_end <= i <= n,
                    run_end(b, i as int, 0x20, 0x2f) == run_end(b, param_end as int, 0x20, 0x2f),
                decreases n - i,
            {
                i += 1;
            }
            assert(i == csi_final_at(b, i0));
            if i < n && 0x40 <= bytes[i] && bytes[i] <= 0x7e {
                let final_byte = bytes[i];
                i += 1;
                let is_col1 = param_end == param_start || (param_end == param_start + 1 && (
                bytes[param_start] == 0x30 || bytes[param_start] == 0x31));
                let is_two = param_end == param_start + 1 && bytes[param_start] == 0x32;
                proof {
                    let params = csi_params(b, i0);
                    assert(params.len() == param_end - param_start);
                    if param_end == param_start + 1 {
                        assert(params[0] == b[param_start as int]);
                        assert(params =~= seq![0x30u8] <==> b[param_start as int] == 0x30);
                        assert(params =~= seq![0x31u8] <==> b[param_start as int] == 0x31);
                        assert(params =~= seq![0x32u8] <==> b[param_start as int] == 0x32);
                    } else {
                        assert(!(params =~= seq![0x30u8]));
                        assert(!(params =~= seq![0x31u8]));
                        assert(!(params =~= seq![0x32u8]));
                    }
                }
                if final_byte == 0x6d {
                    // SGR: keep the whole sequence.
                    let start = param_start - 2;
                    let mut k = start;
                    while k < i
                        invariant
                            b == bytes@,
                            n == b.len(),
                            start <= k <= i <= n,
                            out@ == out0 + b.subrange(start as int, k as int),
                        decreases i - k,
                    {
                        out.push(bytes[k]);
                        k += 1;
                        assert(out@ =~= out0 + b.subrange(start as int, k as int));
                    }
                } else if final_byte == 0x47 && is_col1 {
                    // Cursor to column 1: a carriage return.
                    out.push(0x0d);
                } else if final_byte == 0x4b && is_two {
                    // Erase entire line: a carriage return.
                    out.push(0x0d);
                } else if final_byte == 0x48 {
                    // Cursor absolute position: a carriage return.
                    out.push(0x0d);
                } else {
                    // Any other CSI: the placeholder U+E000.
                    out.push(0xee);
                    out.push(0x80);
                    out.push(0x80);
                }
                assert(out@ =~= out0 + token_image(b, i0));
            }
            assert(i == token_end(b, i0));
            assert(out@ + strip_from(b, i as int) =~= out0 + strip_from(b, i0));
        } else if bytes[i + 1] == 0x5d {
            // OSC: ESC ] ... BEL or ESC \
            i += 2;
            let body_start = i;
            let mut done = false;
            while !done && i < n
                invariant
                    b == bytes@,
                    n == b.len(),
                    body_start <= i <= n,
                    done ==> i == osc_end(b, body_start as int),
                    !done ==> osc_end(b, i as int) == osc_end(b, body_start as int),
                decreases n - i,
            {
                if bytes[i] == 0x07 {
                    i += 1;
                    done = true;
                } else if bytes[i] == 0x1b && i + 1 < n && bytes[i + 1] == 0x5c {
                    i += 2;
                    done = true;
                } else {
                    i += 1;
                }
            }
            assert(i == token_end(b, i0));
            assert(out@ + strip_from(b, i as int) =~= out0 + strip_from(b, i0));
        } else {
            // ESC and one more character: both dropped.
            let lead = bytes[i + 1];
            i += 2;
            if lead >= 0x80 {
                let char_start = i;
                while i < n && 0x80 <= bytes[i] && bytes[i] <= 0xbf
                    invariant
                        b == bytes@,
                        n == b.len(),
                        char_start <= i <= n,
                        run_end(b, i as int, 0x80, 0xbf) == run_end(
                            b,
                            char_start as int,
                            0x80,
                            0xbf,
                        ),
                    decreases n - i,
                {
                    i += 1;
                }
            }
            assert(i == token_end(b, i0));
            assert(out@ + strip_from(b, i as int) =~= out0 + strip_from(b, i0));
        }
    }
    assert(out@ =~= strip_bytes(b));
    proof {
        law_output_is_utf8(input@);
    }
    match string_from_utf8(out) {
        Some(s) => s,
        None => String::new(),
    }
}

} // verus!
