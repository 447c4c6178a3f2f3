//! Properties of the escape-sequence filter over whole inputs: plain text
//! passes unchanged, SGR sequences pass intact, the output is always UTF-8,
//! and filtering twice is filtering once.

use vstd::prelude::*;
use vstd::utf8::*;
use crate::ansi::{
    csi_complete, csi_end, csi_final_at, csi_image, csi_params, csi_params_end, esc,
    lemma_run_end_bounds, lemma_token_end_advances, osc_end, placeholder_bytes,
    run_end, strip_bytes, strip_from, strip_non_sgr_spec, token_end, token_image,
};

verus! {

broadcast use {encode_utf8_valid_utf8, encode_utf8_decode_utf8};

/* Tokens look only forward: a prefix before them changes nothing. */

proof fn lemma_run_end_shift(p: Seq<u8>, x: Seq<u8>, j: int, lo: u8, hi: u8)
    requires
        0 <= j <= x.len(),
    ensures
        run_end(p + x, p.len() + j, lo, hi) == p.len() + run_end(x, j, lo, hi),
    decreases x.len() - j,
{
    if j < x.len() {
        assert((p + x)[p.len() + j] == x[j]);
        if lo <= x[j] <= hi {
            lemma_run_end_shift(p, x, j + 1, lo, hi);
        }
    }
}

proof fn lemma_osc_end_shift(p: Seq<u8>, x: Seq<u8>, j: int)
    requires
        0 <= j <= x.len(),
    ensures
        osc_end(p + x, p.len() + j) == p.len() + osc_end(x, j),
    decreases x.len() - j,
{
    if j < x.len() {
        assert((p + x)[p.len() + j] == x[j]);
        if j + 1 < x.len() {
            assert((p + x)[p.len() + j + 1] == x[j + 1]);
        }
        if !(x[j] == 0x07) && !(x[j] == esc() && j + 1 < x.len() && x[j + 1] == 0x5c) {
            lemma_osc_end_shift(p, x, j + 1);
        }
    }
}

proof fn lemma_csi_shift(p: Seq<u8>, x: Seq<u8>, j: int)
    requires
        0 <= j,
        j + 2 <= x.len(),
    ensures
        csi_params_end(p + x, p.len() + j) == p.len() + csi_params_end(x, j),
        csi_final_at(p + x, p.len() + j) == p.len() + csi_final_at(x, j),
        csi_complete(p + x, p.len() + j) == csi_complete(x, j),
        csi_end(p + x, p.len() + j) == p.len() + csi_end(x, j),
        csi_image(p + x, p.len() + j) == csi_image(x, j),
{
    lemma_run_end_shift(p, x, j + 2, 0x30, 0x3f);
    lemma_run_end_bounds(x, j + 2, 0x30, 0x3f);
    lemma_run_end_shift(p, x, csi_params_end(x, j), 0x20, 0x2f);
    lemma_run_end_bounds(x, csi_params_end(x, j), 0x20, 0x2f);
    let f = csi_final_at(x, j);
    if f < x.len() {
        assert((p + x)[p.len() + f] == x[f]);
    }
    assert(csi_params(p + x, p.len() + j) =~= csi_params(x, j));
    if csi_complete(x, j) {
        assert((p + x).subrange(p.len() + j, p.len() + f + 1) =~= x.subrange(j, f + 1));
    }
}

proof fn lemma_token_shift(p: Seq<u8>, x: Seq<u8>, j: int)
    requires
        0 <= j < x.len(),
    ensures
        token_end(p + x, p.len() + j) == p.len() + token_end(x, j),
        token_image(p + x, p.len() + j) == token_image(x, j),
{
    assert((p + x)[p.len() + j] == x[j]);
    if j + 1 < x.len() {
        assert((p + x)[p.len() + j + 1] == x[j + 1]);
        lemma_csi_shift(p, x, j);
        lemma_osc_end_shift(p, x, j + 2);
        lemma_run_end_shift(p, x, j + 2, 0x80, 0xbf);
    }
}

/// The filter from index `j` of `x` does not depend on what precedes `x`.
pub proof fn lemma_strip_from_shift(p: Seq<u8>, x: Seq<u8>, j: int)
    requires
        0 <= j <= x.len(),
    ensures
        strip_from(p + x, p.len() + j) == strip_from(x, j),
    decreases x.len() - j,
{
    if j < x.len() {
        lemma_token_shift(p, x, j);
        lemma_token_end_advances(x, j);
        lemma_strip_from_shift(p, x, token_end(x, j));
        assert((p + x)[p.len() + j] == x[j]);
        if j + 1 < x.len() {
            assert((p + x)[p.len() + j + 1] == x[j + 1]);
        }
    }
}

pub open spec fn no_escape_byte(e: Seq<u8>) -> bool {
    forall|k: int| 0 <= k < e.len() ==> #[trigger] e[k] != esc()
}

/// Bytes that are not `ESC` are copied one by one.
proof fn lemma_copy_plain(e: Seq<u8>, r: Seq<u8>, j: int)
    requires
        0 <= j <= e.len(),
        no_escape_byte(e),
    ensures
        strip_from(e + r, j) == e.skip(j) + strip_from(r, 0),
    decreases e.len() - j,
{
    if j < e.len() {
        assert((e + r)[j] == e[j]);
        assert(e[j] != esc());
        lemma_copy_plain(e, r, j + 1);
        assert(seq![e[j]] + e.skip(j + 1) =~= e.skip(j));
        assert(seq![e[j]] + (e.skip(j + 1) + strip_from(r, 0)) =~= e.skip(j) + strip_from(r, 0));
    } else {
        lemma_strip_from_shift(e, r, 0);
        assert(e.skip(j) + strip_from(r, 0) =~= strip_from(r, 0));
    }
}

/* The UTF-8 form of a character. */

pub open spec fn is_ascii_char(c: char) -> bool {
    (c as u32) <= 0x7f
}

proof fn lemma_encode_char(c: char)
    ensures
        encode_utf8(seq![c]) == encode_scalar(c as u32),
        is_ascii_char(c) ==> encode_scalar(c as u32) == seq![(c as u32) as u8],
        !is_ascii_char(c) ==> encode_scalar(c as u32).len() >= 2,
        !is_ascii_char(c) ==> forall|k: int|
            0 <= k < encode_scalar(c as u32).len() ==> #[trigger] encode_scalar(c as u32)[k]
                >= 0x80,
        !is_ascii_char(c) ==> encode_scalar(c as u32)[0] >= 0xc0,
        !is_ascii_char(c) ==> forall|k: int|
            1 <= k < encode_scalar(c as u32).len() ==> #[trigger] encode_scalar(c as u32)[k]
                <= 0xbf,
{
    let v = c as u32;
    assert(seq![c].drop_first() =~= Seq::<char>::empty());
    assert(seq![c][0] == c);
    assert(encode_utf8(seq![c].drop_first()) == Seq::<u8>::empty());
    assert(encode_scalar(v) + Seq::<u8>::empty() =~= encode_scalar(v));
    if v <= 0x7f {
        assert((v & 0x7f) as u8 == v as u8) by (bit_vector)
            requires
                v <= 0x7f,
        ;
    } else {
        let e = encode_scalar(v);
        assert(forall|y: u8| #![auto] (0xC0u8 | y) >= 0x80) by (bit_vector);
        assert(forall|y: u8| #![auto] (0xE0u8 | y) >= 0x80) by (bit_vector);
        assert(forall|y: u8| #![auto] (0xF0u8 | y) >= 0x80) by (bit_vector);
        assert(forall|y: u8| #![auto] (0x80u8 | y) >= 0x80) by (bit_vector);
        assert(forall|y: u8| #![auto] (0xC0u8 | y) >= 0xc0) by (bit_vector);
        assert(forall|y: u8| #![auto] (0xE0u8 | y) >= 0xc0) by (bit_vector);
        assert(forall|y: u8| #![auto] (0xF0u8 | y) >= 0xc0) by (bit_vector);
        assert(0x80 <= last_continuation_byte(v) <= 0xbf) by (bit_vector);
        assert(0x80 <= second_last_continuation_byte(v) <= 0xbf) by (bit_vector);
        assert(0x80 <= third_last_continuation_byte(v) <= 0xbf) by (bit_vector);
        assert forall|k: int| 0 <= k < e.len() implies #[trigger] e[k] >= 0x80 by {
            if has_width_2_encoding(v) {
                assert(e[0] == leading_byte_width_2(v));
                assert(e[1] == last_continuation_byte(v));
            } else if has_width_3_encoding(v) {
                assert(e[0] == leading_byte_width_3(v));
            } else {
                assert(e[0] == leading_byte_width_4(v));
            }
        }
        assert(e[0] >= 0xc0) by {
            if has_width_2_encoding(v) {
                assert(e[0] == leading_byte_width_2(v));
            } else if has_width_3_encoding(v) {
                assert(e[0] == leading_byte_width_3(v));
            } else {
                assert(e[0] == leading_byte_width_4(v));
            }
        }
    }
}

pub proof fn lemma_encode_concat(a: Seq<char>, b: Seq<char>)
    ensures
        encode_utf8(a + b) == encode_utf8(a) + encode_utf8(b),
    decreases a.len(),
{
    if a.len() == 0 {
        assert(a + b =~= b);
    } else {
        assert((a + b).drop_first() =~= a.drop_first() + b);
        assert((a + b)[0] == a[0]);
        lemma_encode_concat(a.drop_first(), b);
        assert(encode_scalar(a[0] as u32) + (encode_utf8(a.drop_first()) + encode_utf8(b))
            =~= (encode_scalar(a[0] as u32) + encode_utf8(a.drop_first())) + encode_utf8(b));
    }
}

proof fn lemma_no_escape_in_encoding(s: Seq<char>)
    requires
        forall|i: int| 0 <= i < s.len() ==> #[trigger] s[i] != '\x1b',
    ensures
        no_escape_byte(encode_utf8(s)),
    decreases s.len(),
{
    if s.len() > 0 {
        let c = s[0];
        lemma_encode_char(c);
        let rest = s.drop_first();
        assert forall|i: int| 0 <= i < rest.len() implies #[trigger] rest[i] != '\x1b' by {
            assert(rest[i] == s[i + 1]);
        }
        lemma_no_escape_in_encoding(rest);
        let e = encode_scalar(c as u32);
        let b = encode_utf8(s);
        assert(b == e + encode_utf8(rest));
        assert forall|k: int| 0 <= k < b.len() implies #[trigger] b[k] != esc() by {
            if k < e.len() {
                if is_ascii_char(c) {
                    assert(c != '\x1b');
                    if (c as u32) == 0x1b {
                        char_u32_cast(c, 0x1b);
                        char_u32_cast('\x1b', 0x1b);
                    }
                    assert((c as u32) != 0x1b);
                    assert(((c as u32) as u8) != 0x1b);
                }
            } else {
                assert(b[k] == encode_utf8(rest)[k - e.len()]);
            }
        }
    }
}

/// Text without `ESC` passes unchanged.
pub proof fn law_plain_text_unchanged(s: Seq<char>)
    requires
        forall|i: int| 0 <= i < s.len() ==> #[trigger] s[i] != '\x1b',
    ensures
        strip_bytes(encode_utf8(s)) == encode_utf8(s),
        strip_non_sgr_spec(s) == s,
{
    let b = encode_utf8(s);
    lemma_no_escape_in_encoding(s);
    lemma_copy_plain(b, Seq::empty(), 0);
    assert(b + Seq::<u8>::empty() =~= b);
    assert(b.skip(0) + Seq::<u8>::empty() =~= b);
}


/* Byte offsets of character positions. */

/// The byte offset of the `k`-th character of `t` in its UTF-8 form.
pub open spec fn char_offset(t: Seq<char>, k: int) -> int {
    encode_utf8(t.take(k)).len() as int
}

proof fn lemma_split_at(t: Seq<char>, k: int)
    requires
        0 <= k <= t.len(),
    ensures
        encode_utf8(t) == encode_utf8(t.take(k)) + encode_utf8(t.skip(k)),
{
    assert(t =~= t.take(k) + t.skip(k));
    lemma_encode_concat(t.take(k), t.skip(k));
}

proof fn lemma_char_at(t: Seq<char>, k: int)
    requires
        0 <= k < t.len(),
    ensures
        encode_utf8(t.skip(k)) == encode_scalar(t[k] as u32) + encode_utf8(t.skip(k + 1)),
        char_offset(t, k + 1) == char_offset(t, k) + encode_scalar(t[k] as u32).len(),
        char_offset(t, k + 1) <= encode_utf8(t).len(),
        forall|j: int|
            0 <= j < encode_scalar(t[k] as u32).len() ==> encode_utf8(t)[char_offset(t, k) + j]
                == #[trigger] encode_scalar(t[k] as u32)[j],
{
    let c = t[k];
    let e = encode_scalar(c as u32);
    assert(t.skip(k)[0] == c);
    assert(t.skip(k).drop_first() =~= t.skip(k + 1));
    assert(t.take(k + 1) =~= t.take(k) + seq![c]);
    lemma_encode_concat(t.take(k), seq![c]);
    lemma_encode_char(c);
    lemma_split_at(t, k);
    lemma_split_at(t, k + 1);
    let b = encode_utf8(t);
    assert forall|j: int| 0 <= j < e.len() implies b[char_offset(t, k) + j] == #[trigger] e[j] by {
        assert(encode_utf8(t.take(k + 1))[char_offset(t, k) + j] == e[j]);
    }
}

proof fn lemma_char_offset_ends(t: Seq<char>)
    ensures
        char_offset(t, 0) == 0,
        char_offset(t, t.len() as int) == encode_utf8(t).len(),
{
    assert(t.take(0) =~= Seq::<char>::empty());
    assert(t.take(t.len() as int) =~= t);
}

pub open spec fn ascii_prefix(t: Seq<char>, m: int) -> bool {
    forall|k: int| 0 <= k < m ==> is_ascii_char(#[trigger] t[k])
}

proof fn lemma_ascii_prefix_offset(t: Seq<char>, m: int)
    requires
        0 <= m <= t.len(),
        ascii_prefix(t, m),
    ensures
        char_offset(t, m) == m,
    decreases m,
{
    if m == 0 {
        lemma_char_offset_ends(t);
    } else {
        lemma_ascii_prefix_offset(t, m - 1);
        lemma_char_at(t, m - 1);
        lemma_encode_char(t[m - 1]);
    }
}

proof fn lemma_chars_equal(c: char, d: char)
    requires
        (c as u32) == (d as u32),
    ensures
        c == d,
{
    char_u32_cast(c, c as u32);
    char_u32_cast(d, d as u32);
}

/// The byte at a character's offset: the character itself when it is
/// ASCII, a byte of 0x80 or more otherwise.
proof fn lemma_byte_at_char(t: Seq<char>, k: int)
    requires
        0 <= k < t.len(),
    ensures
        char_offset(t, k) < encode_utf8(t).len(),
        is_ascii_char(t[k]) ==> encode_utf8(t)[char_offset(t, k)] == (t[k] as u32) as u8,
        is_ascii_char(t[k]) ==> (t[k] as u32) == encode_utf8(t)[char_offset(t, k)] as u32,
        is_ascii_char(t[k]) ==> char_offset(t, k + 1) == char_offset(t, k) + 1,
        !is_ascii_char(t[k]) ==> encode_utf8(t)[char_offset(t, k)] >= 0x80,
{
    lemma_char_at(t, k);
    lemma_encode_char(t[k]);
    assert(encode_scalar(t[k] as u32)[0] == encode_utf8(t)[char_offset(t, k) + 0]);
}

/* Runs of ASCII bytes over characters. */

proof fn lemma_run_end_chars(t: Seq<char>, i: int, lo: u8, hi: u8)
    requires
        0 <= i <= t.len(),
        hi <= 0x7f,
        ascii_prefix(t, i),
    ensures
        i <= run_end(encode_utf8(t), i, lo, hi) <= t.len(),
        ascii_prefix(t, run_end(encode_utf8(t), i, lo, hi)),
    decreases t.len() - i,
{
    let b = encode_utf8(t);
    lemma_ascii_prefix_offset(t, i);
    if i == t.len() {
        lemma_char_offset_ends(t);
    } else {
        lemma_byte_at_char(t, i);
        if is_ascii_char(t[i]) && lo <= b[i] <= hi {
            lemma_run_end_chars(t, i + 1, lo, hi);
        }
    }
}

/* OSC bodies over characters. */

pub open spec fn char_osc_end(t: Seq<char>, k: int) -> int
    decreases t.len() - k,
{
    if k < 0 || k >= t.len() {
        k
    } else if t[k] == '\x07' {
        k + 1
    } else if t[k] == '\x1b' && k + 1 < t.len() && t[k + 1] == '\\' {
        k + 2
    } else {
        char_osc_end(t, k + 1)
    }
}

proof fn lemma_osc_skip(b: Seq<u8>, i: int, n: int)
    requires
        0 <= i,
        0 <= n,
        i + n <= b.len(),
        forall|j: int| i <= j < i + n ==> #[trigger] b[j] >= 0x80,
    ensures
        osc_end(b, i) == osc_end(b, i + n),
    decreases n,
{
    if n > 0 {
        assert(b[i] >= 0x80);
        lemma_osc_skip(b, i + 1, n - 1);
    }
}

proof fn lemma_osc_chars(t: Seq<char>, k: int)
    requires
        0 <= k <= t.len(),
    ensures
        osc_end(encode_utf8(t), char_offset(t, k)) == char_offset(t, char_osc_end(t, k)),
        k <= char_osc_end(t, k) <= t.len(),
    decreases t.len() - k,
{
    let b = encode_utf8(t);
    if k == t.len() {
        lemma_char_offset_ends(t);
    } else {
        let o = char_offset(t, k);
        lemma_byte_at_char(t, k);
        lemma_char_at(t, k);
        let c = t[k];
        if is_ascii_char(c) {
            if c == '\x07' {
            } else if b[o] == 0x07 {
                lemma_chars_equal(c, '\x07');
            } else if c == '\x1b' && k + 1 < t.len() {
                lemma_byte_at_char(t, k + 1);
                lemma_char_at(t, k + 1);
                let d = t[k + 1];
                if is_ascii_char(d) && b[o + 1] == 0x5c {
                    lemma_chars_equal(d, '\\');
                } else {
                    if d == '\\' {
                        assert(b[o + 1] == 0x5c);
                    }
                    lemma_osc_chars(t, k + 1);
                }
            } else {
                if b[o] == 0x1b {
                    lemma_chars_equal(c, '\x1b');
                    lemma_char_offset_ends(t);
                }
                lemma_osc_chars(t, k + 1);
            }
        } else {
            lemma_encode_char(c);
            let e = encode_scalar(c as u32);
            assert forall|j: int| o <= j < o + e.len() implies #[trigger] b[j] >= 0x80 by {
                assert(b[o + (j - o)] == e[j - o]);
            }
            lemma_osc_skip(b, o, e.len() as int);
            if c == '\x07' || c == '\x1b' {
            }
            lemma_osc_chars(t, k + 1);
        }
    }
}


/* What the kept and substituted sequences are as characters. */

proof fn lemma_images_are_utf8()
    ensures
        seq![0x0du8] == encode_utf8(seq!['\r']),
        placeholder_bytes() == encode_utf8(seq!['\u{E000}']),
        valid_utf8(seq![0x0du8]),
        valid_utf8(placeholder_bytes()),
        valid_utf8(Seq::<u8>::empty()),
{
    lemma_encode_char('\r');
    lemma_encode_char('\u{E000}');
    let v: u32 = 0xE000;
    assert(('\u{E000}' as u32) == v);
    assert(has_width_3_encoding(v));
    assert(leading_byte_width_3(v) == 0xee) by (bit_vector)
        requires
            v == 0xE000,
    ;
    assert(second_last_continuation_byte(v) == 0x80) by (bit_vector)
        requires
            v == 0xE000,
    ;
    assert(last_continuation_byte(v) == 0x80) by (bit_vector)
        requires
            v == 0xE000,
    ;
    assert(encode_scalar(v) =~= placeholder_bytes());
    assert(encode_utf8(Seq::<char>::empty()) == Seq::<u8>::empty());
}

/// An escape token at the start of the UTF-8 form of `t` ends at a
/// character boundary, and what it contributes is UTF-8.
proof fn lemma_escape_token(t: Seq<char>) -> (k: int)
    requires
        t.len() > 0,
        is_ascii_char(t[0]),
        encode_utf8(t)[0] == esc(),
    ensures
        1 <= k <= t.len(),
        char_offset(t, k) == token_end(encode_utf8(t), 0),
        valid_utf8(token_image(encode_utf8(t), 0)),
{
    let b = encode_utf8(t);
    lemma_char_offset_ends(t);
    lemma_images_are_utf8();
    lemma_byte_at_char(t, 0);
    lemma_ascii_prefix_offset(t, 1);
    if t.len() == 1 {
        assert(b.len() == 1);
        1
    } else {
        lemma_byte_at_char(t, 1);
        lemma_token_end_advances(b, 0);
        if !is_ascii_char(t[1]) {
            // ESC and a multi-byte character: the whole character goes.
            lemma_char_at(t, 1);
            lemma_encode_char(t[1]);
            let e = encode_scalar(t[1] as u32);
            let o2 = char_offset(t, 2);
            assert(o2 == 1 + e.len());
            assert(b[1] == e[0]);
            assert forall|j: int| 2 <= j < o2 implies 0x80 <= #[trigger] b[j] <= 0xbf by {
                assert(b[char_offset(t, 1) + (j - 1)] == e[j - 1]);
            }
            if 2 < t.len() {
                lemma_byte_at_char(t, 2);
                if is_ascii_char(t[2]) {
                } else {
                    lemma_char_at(t, 2);
                    lemma_encode_char(t[2]);
                    assert(b[o2] == encode_scalar(t[2] as u32)[0]);
                }
            } else {
                assert(o2 == b.len());
            }
            lemma_run_end_block(b, 2, o2 - 2, 0x80, 0xbf);
            return 2;
        }
        assert(is_ascii_char(t[1]));
        if b[1] == 0x5b {
            lemma_run_end_chars(t, 2, 0x30, 0x3f);
            let pe = csi_params_end(b, 0);
            lemma_run_end_chars(t, pe, 0x20, 0x2f);
            let f = csi_final_at(b, 0);
            lemma_ascii_prefix_offset(t, f);
            if f < t.len() {
                lemma_byte_at_char(t, f);
            } else {
                lemma_ascii_prefix_offset(t, t.len() as int);
            }
            if csi_complete(b, 0) {
                assert(f < t.len());
                assert(is_ascii_char(t[f]));
                assert(ascii_prefix(t, f + 1));
                lemma_ascii_prefix_offset(t, f + 1);
                lemma_split_at(t, f + 1);
                assert(b.subrange(0, f + 1) =~= encode_utf8(t.take(f + 1)));
                f + 1
            } else {
                f
            }
        } else if b[1] == 0x5d {
            lemma_osc_chars(t, 2);
            char_osc_end(t, 2)
        } else {
            2
        }
    }
}

/// The filtered bytes of UTF-8 text are UTF-8.
proof fn lemma_strip_valid(t: Seq<char>)
    ensures
        valid_utf8(strip_bytes(encode_utf8(t))),
    decreases t.len(),
{
    let b = encode_utf8(t);
    lemma_images_are_utf8();
    if t.len() == 0 {
        assert(b == Seq::<u8>::empty());
    } else {
        lemma_char_offset_ends(t);
        lemma_byte_at_char(t, 0);
        lemma_char_at(t, 0);
        lemma_encode_char(t[0]);
        let c = t[0];
        let rest = t.skip(1);
        assert(t.skip(0) =~= t);
        let e = encode_scalar(c as u32);
        assert(b == e + encode_utf8(rest));
        if !is_ascii_char(c) || b[0] != 0x1b {
            assert forall|j: int| 0 <= j < e.len() implies #[trigger] e[j] != esc() by {
                assert(b[char_offset(t, 0) + j] == e[j]);
            }
            lemma_copy_plain(e, encode_utf8(rest), 0);
            assert(e.skip(0) =~= e);
            lemma_strip_valid(rest);
            valid_utf8_concat(e, strip_bytes(encode_utf8(rest)));
        } else {
            let k = lemma_escape_token(t);
            lemma_token_end_advances(b, 0);
            lemma_split_at(t, k);
            lemma_strip_from_shift(encode_utf8(t.take(k)), encode_utf8(t.skip(k)), 0);
            lemma_strip_valid(t.skip(k));
            valid_utf8_concat(token_image(b, 0), strip_bytes(encode_utf8(t.skip(k))));
        }
    }
}

/// The output is always UTF-8: the filtered bytes of any text decode, and
/// the characters returned are exactly those bytes.
pub proof fn law_output_is_utf8(s: Seq<char>)
    ensures
        valid_utf8(strip_bytes(encode_utf8(s))),
        encode_utf8(strip_non_sgr_spec(s)) == strip_bytes(encode_utf8(s)),
{
    lemma_strip_valid(s);
    decode_utf8_encode_utf8(strip_bytes(encode_utf8(s)));
}


/* SGR sequences. */

proof fn lemma_run_end_block(b: Seq<u8>, i: int, n: int, lo: u8, hi: u8)
    requires
        0 <= i,
        0 <= n,
        i + n <= b.len(),
        forall|j: int| i <= j < i + n ==> lo <= #[trigger] b[j] <= hi,
        i + n < b.len() ==> !(lo <= b[i + n] <= hi),
    ensures
        run_end(b, i, lo, hi) == i + n,
    decreases n,
{
    if n > 0 {
        assert(lo <= b[i] <= hi);
        lemma_run_end_block(b, i + 1, n - 1, lo, hi);
    }
}

/// The bytes of an SGR sequence: `ESC [`, parameter bytes, intermediate
/// bytes, `m`.
pub open spec fn sgr_bytes(params: Seq<u8>, inter: Seq<u8>) -> Seq<u8> {
    seq![0x1bu8, 0x5bu8] + params + inter + seq![0x6du8]
}

pub open spec fn all_in(s: Seq<u8>, lo: u8, hi: u8) -> bool {
    forall|j: int| 0 <= j < s.len() ==> lo <= #[trigger] s[j] <= hi
}

/// An SGR sequence passes through intact, and what follows it is filtered
/// as if it stood alone.
pub proof fn law_sgr_passes_through(params: Seq<u8>, inter: Seq<u8>, rest: Seq<u8>)
    requires
        all_in(params, 0x30, 0x3f),
        all_in(inter, 0x20, 0x2f),
    ensures
        strip_bytes(sgr_bytes(params, inter) + rest) == sgr_bytes(params, inter) + strip_bytes(
            rest,
        ),
        sgr_at(sgr_bytes(params, inter) + rest, 0),
{
    let sgr = sgr_bytes(params, inter);
    let b = sgr + rest;
    let np = params.len() as int;
    let ni = inter.len() as int;
    let f = 2 + np + ni;
    assert(sgr.len() == f + 1);
    assert forall|j: int| 0 <= j < sgr.len() implies b[j] == #[trigger] sgr[j] by {}
    assert(b[0] == 0x1b);
    assert(b[1] == 0x5b);
    assert forall|j: int| 2 <= j < 2 + np implies 0x30 <= #[trigger] b[j] <= 0x3f by {
        assert(b[j] == params[j - 2]);
    }
    if ni > 0 {
        assert(b[2 + np] == inter[0]);
    } else {
        assert(b[2 + np] == 0x6d);
    }
    lemma_run_end_block(b, 2, np, 0x30, 0x3f);
    assert forall|j: int| 2 + np <= j < f implies 0x20 <= #[trigger] b[j] <= 0x2f by {
        assert(b[j] == inter[j - 2 - np]);
    }
    assert(b[f] == 0x6d);
    lemma_run_end_block(b, 2 + np, ni, 0x20, 0x2f);
    assert(csi_final_at(b, 0) == f);
    assert(csi_complete(b, 0));
    assert(token_image(b, 0) =~= sgr);
    assert(token_end(b, 0) == sgr.len());
    lemma_strip_from_shift(sgr, rest, 0);
}

/// A lone SGR sequence, as characters, is returned unchanged.
pub proof fn law_sgr_unchanged(p: Seq<char>, q: Seq<char>)
    requires
        forall|j: int| 0 <= j < p.len() ==> '0' <= #[trigger] p[j] <= '?',
        forall|j: int| 0 <= j < q.len() ==> ' ' <= #[trigger] q[j] <= '/',
    ensures
        strip_non_sgr_spec(seq!['\x1b', '['] + p + q + seq!['m']) == seq!['\x1b', '['] + p + q
            + seq!['m'],
{
    let s = seq!['\x1b', '['] + p + q + seq!['m'];
    let np: int = 2 + p.len() as int;
    assert forall|j: int| 2 <= j < np implies '0' <= #[trigger] s[j] <= '?' by {
        assert(s[j] == p[j - 2]);
    }
    assert forall|j: int| np <= j < s.len() - 1 implies ' ' <= #[trigger] s[j] <= '/' by {
        assert(s[j] == q[j - np]);
    }
    assert(s[0] == '\x1b');
    assert(s[1] == '[');
    assert(s[s.len() - 1] == 'm');
    assert(is_ascii_chars(s));
    is_ascii_chars_encode_utf8(s);
    let b = encode_utf8(s);
    let params = b.subrange(2, np);
    let inter = b.subrange(np, s.len() - 1);
    assert forall|j: int| 0 <= j < params.len() implies 0x30 <= #[trigger] params[j] <= 0x3f by {
        assert(params[j] == b[j + 2]);
        assert(s[j + 2] as u8 == b[j + 2]);
    }
    assert forall|j: int| 0 <= j < inter.len() implies 0x20 <= #[trigger] inter[j] <= 0x2f by {
        assert(inter[j] == b[j + np]);
        assert(s[j + np] as u8 == b[j + np]);
    }
    assert(s[0] as u8 == b[0]);
    assert(s[1] as u8 == b[1]);
    assert(s[s.len() - 1] as u8 == b[s.len() - 1]);
    assert(b =~= sgr_bytes(params, inter));
    law_sgr_passes_through(params, inter, Seq::empty());
    assert(strip_bytes(Seq::<u8>::empty()) == Seq::<u8>::empty());
    assert(b + Seq::<u8>::empty() =~= b);
}


/* Filtering twice. */

proof fn lemma_run_end_all_in(b: Seq<u8>, i: int, lo: u8, hi: u8)
    requires
        0 <= i <= b.len(),
    ensures
        forall|j: int| i <= j < run_end(b, i, lo, hi) ==> lo <= #[trigger] b[j] <= hi,
    decreases b.len() - i,
{
    if i < b.len() && lo <= b[i] <= hi {
        lemma_run_end_all_in(b, i + 1, lo, hi);
    }
}

/// What a token contributes comes out of the filter again as it is, and
/// does not change how what follows it is filtered.
proof fn lemma_image_stable(b: Seq<u8>, i: int, rest: Seq<u8>)
    requires
        0 <= i < b.len(),
    ensures
        strip_bytes(token_image(b, i) + rest) == token_image(b, i) + strip_bytes(rest),
{
    let img = token_image(b, i);
    if img.len() == 0 {
        assert(img + rest =~= rest);
        assert(img + strip_bytes(rest) =~= strip_bytes(rest));
    } else if b[i] == esc() && b[i + 1] == 0x5b && b[csi_final_at(b, i)] == 0x6d {
        let pe = csi_params_end(b, i);
        let f = csi_final_at(b, i);
        lemma_run_end_bounds(b, i + 2, 0x30, 0x3f);
        lemma_run_end_bounds(b, pe, 0x20, 0x2f);
        lemma_run_end_all_in(b, i + 2, 0x30, 0x3f);
        lemma_run_end_all_in(b, pe, 0x20, 0x2f);
        let params = b.subrange(i + 2, pe);
        let inter = b.subrange(pe, f);
        assert forall|j: int| 0 <= j < params.len() implies 0x30 <= #[trigger] params[j]
            <= 0x3f by {
            assert(params[j] == b[i + 2 + j]);
        }
        assert forall|j: int| 0 <= j < inter.len() implies 0x20 <= #[trigger] inter[j]
            <= 0x2f by {
            assert(inter[j] == b[pe + j]);
        }
        assert(img =~= sgr_bytes(params, inter));
        law_sgr_passes_through(params, inter, rest);
    } else {
        lemma_images_are_utf8();
        assert forall|k: int| 0 <= k < img.len() implies #[trigger] img[k] != esc() by {}
        lemma_copy_plain(img, rest, 0);
        assert(img.skip(0) =~= img);
    }
}

proof fn lemma_strip_from_stable(b: Seq<u8>, i: int)
    requires
        0 <= i <= b.len(),
    ensures
        strip_bytes(strip_from(b, i)) == strip_from(b, i),
    decreases b.len() - i,
{
    if i < b.len() {
        lemma_token_end_advances(b, i);
        lemma_strip_from_stable(b, token_end(b, i));
        lemma_image_stable(b, i, strip_from(b, token_end(b, i)));
    } else {
        assert(strip_from(b, i) == Seq::<u8>::empty());
        assert(strip_bytes(Seq::<u8>::empty()) == Seq::<u8>::empty());
    }
}

/// Filtering is idempotent: what the filter returns passes through it
/// again unchanged, as bytes and as the characters `strip_non_sgr` returns.
pub proof fn law_filter_idempotent(b: Seq<u8>, s: Seq<char>)
    ensures
        strip_bytes(strip_bytes(b)) == strip_bytes(b),
        strip_non_sgr_spec(strip_non_sgr_spec(s)) == strip_non_sgr_spec(s),
{
    lemma_strip_from_stable(b, 0);
    let out = strip_bytes(encode_utf8(s));
    lemma_strip_from_stable(encode_utf8(s), 0);
    law_output_is_utf8(s);
    decode_utf8_encode_utf8(out);
}


/* Where an ESC can stand in the output, and how long the output is. */

/// At `k` starts a complete SGR sequence: `ESC [`, parameter bytes,
/// intermediate bytes, `m`.
pub open spec fn sgr_at(o: Seq<u8>, k: int) -> bool {
    &&& 0 <= k
    &&& k + 1 < o.len()
    &&& o[k] == esc()
    &&& o[k + 1] == 0x5b
    &&& csi_complete(o, k)
    &&& o[csi_final_at(o, k)] == 0x6d
}

/// Every `ESC` in `o` starts a complete SGR sequence.
pub open spec fn escapes_are_sgr(o: Seq<u8>) -> bool {
    forall|k: int| 0 <= k < o.len() && o[k] == esc() ==> #[trigger] sgr_at(o, k)
}

proof fn lemma_token_shape(b: Seq<u8>, i: int, rest: Seq<u8>)
    requires
        0 <= i < b.len(),
        escapes_are_sgr(rest),
    ensures
        escapes_are_sgr(token_image(b, i) + rest),
        token_image(b, i).len() <= token_end(b, i) - i,
{
    let img = token_image(b, i);
    let o = img + rest;
    lemma_token_end_advances(b, i);
    lemma_images_are_utf8();
    if b[i] == esc() && i + 1 < b.len() && b[i + 1] == 0x5b {
        lemma_run_end_bounds(b, i + 2, 0x30, 0x3f);
        lemma_run_end_bounds(b, csi_params_end(b, i), 0x20, 0x2f);
        let f = csi_final_at(b, i);
        if csi_complete(b, i) && b[f] == 0x6d {
            assert(img.len() == f + 1 - i);
        }
    }
    assert forall|k: int| 0 <= k < o.len() && o[k] == esc() implies #[trigger] sgr_at(o, k) by {
        if k >= img.len() {
            let k2 = k - img.len();
            assert(o[k] == rest[k2]);
            assert(sgr_at(rest, k2));
            lemma_csi_shift(img, rest, k2);
            assert(o[k + 1] == rest[k2 + 1]);
            let f2 = csi_final_at(rest, k2);
            lemma_run_end_bounds(rest, k2 + 2, 0x30, 0x3f);
            lemma_run_end_bounds(rest, csi_params_end(rest, k2), 0x20, 0x2f);
            assert(0 <= f2 < rest.len());
            assert(csi_final_at(o, k) == img.len() + f2);
            assert(o[img.len() + f2] == rest[f2]);
        } else if b[i] == esc() && b[i + 1] == 0x5b && b[csi_final_at(b, i)] == 0x6d && img.len()
            > 0 {
            let pe = csi_params_end(b, i);
            let f = csi_final_at(b, i);
            lemma_run_end_bounds(b, i + 2, 0x30, 0x3f);
            lemma_run_end_bounds(b, pe, 0x20, 0x2f);
            lemma_run_end_all_in(b, i + 2, 0x30, 0x3f);
            lemma_run_end_all_in(b, pe, 0x20, 0x2f);
            let params = b.subrange(i + 2, pe);
            let inter = b.subrange(pe, f);
            assert forall|j: int| 0 <= j < params.len() implies 0x30 <= #[trigger] params[j]
                <= 0x3f by {
                assert(params[j] == b[i + 2 + j]);
            }
            assert forall|j: int| 0 <= j < inter.len() implies 0x20 <= #[trigger] inter[j]
                <= 0x2f by {
                assert(inter[j] == b[pe + j]);
            }
            assert(img =~= sgr_bytes(params, inter));
            law_sgr_passes_through(params, inter, rest);
            if k > 0 {
                assert(o[k] == img[k]);
                if k < 2 + params.len() {
                    assert(img[k] == params[k - 2]);
                } else if k < 2 + params.len() + inter.len() {
                    assert(img[k] == inter[k - 2 - params.len()]);
                }
            }
        } else {
            lemma_images_are_utf8();
            assert(o[k] == img[k]);
        }
    }
}

proof fn lemma_strip_from_shape(b: Seq<u8>, i: int)
    requires
        0 <= i <= b.len(),
    ensures
        escapes_are_sgr(strip_from(b, i)),
        strip_from(b, i).len() <= b.len() - i,
    decreases b.len() - i,
{
    if i < b.len() {
        lemma_token_end_advances(b, i);
        lemma_strip_from_shape(b, token_end(b, i));
        lemma_token_shape(b, i, strip_from(b, token_end(b, i)));
    } else {
        assert(strip_from(b, i) == Seq::<u8>::empty());
    }
}

/// Every `ESC` left in the output starts a complete SGR sequence (no other
/// CSI, no OSC, no `ESC` with a character and no lone `ESC` survives), and
/// the output is never longer than the input, in bytes.
pub proof fn law_output_shape(b: Seq<u8>)
    ensures
        escapes_are_sgr(strip_bytes(b)),
        strip_bytes(b).len() <= b.len(),
{
    lemma_strip_from_shape(b, 0);
}


/* Every CSI sequence, over characters. */

/// The bytes of a CSI sequence: `ESC [`, parameter bytes, intermediate
/// bytes, a final byte.
pub open spec fn csi_bytes(params: Seq<u8>, inter: Seq<u8>, fb: u8) -> Seq<u8> {
    seq![0x1bu8, 0x5bu8] + params + inter + seq![fb]
}

proof fn lemma_csi_token(params: Seq<u8>, inter: Seq<u8>, fb: u8, rest: Seq<u8>)
    requires
        all_in(params, 0x30, 0x3f),
        all_in(inter, 0x20, 0x2f),
        0x40 <= fb <= 0x7e,
    ensures
        ({
            let c = csi_bytes(params, inter, fb);
            let b = c + rest;
            &&& token_end(b, 0) == c.len()
            &&& csi_complete(b, 0)
            &&& csi_final_at(b, 0) == c.len() - 1
            &&& b[csi_final_at(b, 0)] == fb
            &&& csi_params(b, 0) == params
            &&& token_image(b, 0) == csi_image(b, 0)
            &&& b.subrange(0, c.len() as int) == c
            &&& strip_bytes(b) == token_image(b, 0) + strip_bytes(rest)
        }),
{
    let c = csi_bytes(params, inter, fb);
    let b = c + rest;
    let np = params.len() as int;
    let ni = inter.len() as int;
    let f = 2 + np + ni;
    assert(c.len() == f + 1);
    assert forall|j: int| 0 <= j < c.len() implies b[j] == #[trigger] c[j] by {}
    assert(b[0] == 0x1b);
    assert(b[1] == 0x5b);
    assert forall|j: int| 2 <= j < 2 + np implies 0x30 <= #[trigger] b[j] <= 0x3f by {
        assert(b[j] == params[j - 2]);
    }
    if ni > 0 {
        assert(b[2 + np] == inter[0]);
    } else {
        assert(b[2 + np] == fb);
    }
    lemma_run_end_block(b, 2, np, 0x30, 0x3f);
    assert forall|j: int| 2 + np <= j < f implies 0x20 <= #[trigger] b[j] <= 0x2f by {
        assert(b[j] == inter[j - 2 - np]);
    }
    assert(b[f] == fb);
    lemma_run_end_block(b, 2 + np, ni, 0x20, 0x2f);
    assert(csi_final_at(b, 0) == f);
    assert(csi_complete(b, 0));
    assert(csi_params(b, 0) =~= params);
    assert(b.subrange(0, c.len() as int) =~= c);
    lemma_token_end_advances(b, 0);
    lemma_strip_from_shift(c, rest, 0);
}

proof fn lemma_ascii_byte_eq(ch: char, lit: char)
    requires
        is_ascii_char(ch),
        is_ascii_char(lit),
    ensures
        ((ch as u8) == (lit as u8)) == (ch == lit),
{
    if (ch as u8) == (lit as u8) {
        assert((ch as u32) == (lit as u32));
        lemma_chars_equal(ch, lit);
    }
}

/// Every complete CSI sequence (`ESC [`, parameter characters `0`-`?`,
/// intermediate characters ` `-`/`, a final character `@`-`~`) standing
/// between plain text and any rest is replaced as follows, and touches
/// neither: an SGR sequence (final `m`) is kept whole; cursor to column 1
/// (`G` with no parameter, `0` or `1`), erase entire line (`2K`) and cursor
/// position (`H`) become one carriage return; every other one becomes the
/// single placeholder U+E000.
pub proof fn law_csi_replaced(x: Seq<char>, p: Seq<char>, q: Seq<char>, f: char, y: Seq<char>)
    requires
        forall|i: int| 0 <= i < x.len() ==> #[trigger] x[i] != '\x1b',
        forall|j: int| 0 <= j < p.len() ==> '0' <= #[trigger] p[j] <= '?',
        forall|j: int| 0 <= j < q.len() ==> ' ' <= #[trigger] q[j] <= '/',
        '@' <= f <= '~',
    ensures
        strip_non_sgr_spec(x + (seq!['\x1b', '['] + p + q + seq![f]) + y) == x + (if f == 'm' {
            seq!['\x1b', '['] + p + q + seq![f]
        } else if (f == 'G' && (p.len() == 0 || p == seq!['0'] || p == seq!['1'])) || (f == 'K'
            && p == seq!['2']) || f == 'H' {
            seq!['\r']
        } else {
            seq!['\u{E000}']
        }) + strip_non_sgr_spec(y),
{
    let c = seq!['\x1b', '['] + p + q + seq![f];
    let np = p.len() as int;
    let nq = q.len() as int;
    assert forall|k: int| 0 <= k < c.len() implies is_ascii_char(#[trigger] c[k]) by {
        if 2 <= k < 2 + np {
            assert(c[k] == p[k - 2]);
        } else if 2 + np <= k < 2 + np + nq {
            assert(c[k] == q[k - 2 - np]);
        }
    }
    assert(is_ascii_chars(c)) by {
        assert forall|k: int| 0 <= k < c.len() implies '\0' <= #[trigger] c[k] <= '\u{7f}' by {
            assert(is_ascii_char(c[k]));
        }
    }
    is_ascii_chars_encode_utf8(c);
    let cb = encode_utf8(c);
    let pb = cb.subrange(2, 2 + np);
    let qb = cb.subrange(2 + np, 2 + np + nq);
    let fb = cb[2 + np + nq];
    assert(c[2 + np + nq] == f);
    assert forall|j: int| 0 <= j < pb.len() implies 0x30 <= #[trigger] pb[j] <= 0x3f by {
        assert(pb[j] == cb[j + 2]);
        assert(c[j + 2] as u8 == cb[j + 2]);
        assert(c[j + 2] == p[j]);
    }
    assert forall|j: int| 0 <= j < qb.len() implies 0x20 <= #[trigger] qb[j] <= 0x2f by {
        assert(qb[j] == cb[j + 2 + np]);
        assert(c[j + 2 + np] as u8 == cb[j + 2 + np]);
        assert(c[j + 2 + np] == q[j]);
    }
    assert(c[0] as u8 == cb[0]);
    assert(c[1] as u8 == cb[1]);
    assert(f as u8 == fb);
    assert(cb =~= csi_bytes(pb, qb, fb));
    let ey = encode_utf8(y);
    lemma_csi_token(pb, qb, fb, ey);
    let b = cb + ey;
    // The final character and the parameters, as bytes.
    lemma_ascii_byte_eq(f, 'm');
    lemma_ascii_byte_eq(f, 'G');
    lemma_ascii_byte_eq(f, 'K');
    lemma_ascii_byte_eq(f, 'H');
    assert(pb.len() == np);
    if np == 1 {
        assert(c[2] == p[0]);
        assert(p[0] as u8 == pb[0]);
        assert(is_ascii_char(p[0]));
        lemma_ascii_byte_eq(p[0], '0');
        lemma_ascii_byte_eq(p[0], '1');
        lemma_ascii_byte_eq(p[0], '2');
        assert(pb =~= seq![0x30u8] <==> p =~= seq!['0']);
        assert(pb =~= seq![0x31u8] <==> p =~= seq!['1']);
        assert(pb =~= seq![0x32u8] <==> p =~= seq!['2']);
    } else {
        assert(!(pb =~= seq![0x30u8]) && !(p =~= seq!['0']));
        assert(!(pb =~= seq![0x31u8]) && !(p =~= seq!['1']));
        assert(!(pb =~= seq![0x32u8]) && !(p =~= seq!['2']));
    }
    let r = if f == 'm' {
        c
    } else if (f == 'G' && (p.len() == 0 || p == seq!['0'] || p == seq!['1'])) || (f == 'K' && p
        == seq!['2']) || f == 'H' {
        seq!['\r']
    } else {
        seq!['\u{E000}']
    };
    lemma_images_are_utf8();
    assert(token_image(b, 0) == encode_utf8(r));
    // The whole input, as bytes.
    let ex = encode_utf8(x);
    lemma_encode_concat(x, c);
    lemma_encode_concat(x + c, y);
    assert(encode_utf8(x + c + y) =~= ex + b);
    lemma_no_escape_in_encoding(x);
    lemma_copy_plain(ex, b, 0);
    assert(ex.skip(0) =~= ex);
    law_output_is_utf8(y);
    let out = ex + (encode_utf8(r) + encode_utf8(strip_non_sgr_spec(y)));
    assert(strip_bytes(encode_utf8(x + c + y)) == out);
    lemma_encode_concat(r, strip_non_sgr_spec(y));
    lemma_encode_concat(x, r + strip_non_sgr_spec(y));
    assert(x + r + strip_non_sgr_spec(y) =~= x + (r + strip_non_sgr_spec(y)));
    assert(out == encode_utf8(x + r + strip_non_sgr_spec(y)));
}

} // verus!
