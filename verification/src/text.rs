use vstd::prelude::*;
use vstd::std_specs::iter::IteratorSpec;
use vstd::utf8::{
    codepoint_width_1, codepoint_width_2, codepoint_width_3, codepoint_width_4,
    decode_first_codepoint, decode_first_scalar, is_char_boundary,
    is_char_boundary_iff_not_is_continuation_byte, is_char_boundary_start_end_of_seq,
    is_continuation_byte, length_of_first_scalar, pop_first_scalar, valid_first_scalar,
    valid_utf8, valid_utf8_split, encode_utf8_valid_utf8,
};
use vstd::string::StringSliceAdditionalSpecFns;
use crate::unicode::{from_scalar, spec_is_word_char};

verus! {

// Positions in a haystack are byte offsets. A character is read at a position
// by decoding one UTF-8 scalar there; bytes that do not start a well-formed
// encoding hold no character.

/// The character encoded at byte offset `pos` of `s`, with the offset just
/// past it, or `None` when no well-formed UTF-8 scalar starts there.
pub open spec fn spec_next_char(s: Seq<u8>, pos: int) -> Option<(char, int)> {
    if 0 <= pos < s.len() && valid_first_scalar(s.subrange(pos, s.len() as int)) {
        let t = s.subrange(pos, s.len() as int);
        Some((decode_first_scalar(t) as char, pos + length_of_first_scalar(t)))
    } else {
        None
    }
}

/// The first `i` in `from..pos` whose character ends exactly at `pos`.
pub open spec fn spec_prev_char_from(s: Seq<u8>, from: int, pos: int) -> Option<char>
    decreases pos - from,
{
    if from >= pos {
        None
    } else {
        match spec_next_char(s, from) {
            Some((c, e)) => if e == pos {
                Some(c)
            } else {
                spec_prev_char_from(s, from + 1, pos)
            },
            None => spec_prev_char_from(s, from + 1, pos),
        }
    }
}

/// The character that ends exactly at `pos`, looking at most four bytes back.
pub open spec fn spec_prev_char(s: Seq<u8>, pos: int) -> Option<char> {
    spec_prev_char_from(s, if pos >= 4 { pos - 4 } else { 0 }, pos)
}

/// A position that a match may start or end at: inside the haystack, and,
/// when `text` holds (a haystack of well-formed UTF-8 searched as text), on a
/// character boundary. (A haystack held in memory is never longer than
/// `usize::MAX`.)
pub open spec fn good_pos(s: Seq<u8>, p: int, text: bool) -> bool {
    &&& 0 <= p <= s.len() <= usize::MAX
    &&& text ==> valid_utf8(s) && is_char_boundary(s, p)
}

pub proof fn lemma_bits(b0: u8, b1: u8, b2: u8, b3: u8)
    ensures
        (((b0 & 0x1F) as u32) << 6u32) | ((b1 & 0x3F) as u32) <= 0x7FF,
        (((b0 & 0x0F) as u32) << 12u32) | (((b1 & 0x3F) as u32) << 6u32) | ((b2 & 0x3F) as u32)
            <= 0xFFFF,
        (((b0 & 0x07) as u32) << 18u32) | (((b1 & 0x3F) as u32) << 12u32) | (((b2 & 0x3F) as u32)
            << 6u32) | ((b3 & 0x3F) as u32) <= 0x1FFFFF,
{
    assert((((b0 & 0x1F) as u32) << 6u32) | ((b1 & 0x3F) as u32) <= 0x7FF) by (bit_vector);
    assert((((b0 & 0x0F) as u32) << 12u32) | (((b1 & 0x3F) as u32) << 6u32) | ((b2
        & 0x3F) as u32) <= 0xFFFF) by (bit_vector);
    assert((((b0 & 0x07) as u32) << 18u32) | (((b1 & 0x3F) as u32) << 12u32) | (((b2
        & 0x3F) as u32) << 6u32) | ((b3 & 0x3F) as u32) <= 0x1FFFFF) by (bit_vector);
}

/// Returns the character at `pos` and the offset of the following character.
pub fn next_char(s: &[u8], pos: usize) -> (r: Option<(char, usize)>)
    ensures
        match r {
            Some((c, e)) => spec_next_char(s@, pos as int) == Some((c, e as int)),
            None => spec_next_char(s@, pos as int) is None,
        },
{
    if pos >= s.len() {
        return None;
    }
    let ghost t = s@.subrange(pos as int, s@.len() as int);
    assert(t[0] == s@[pos as int]);
    let b0 = s[pos];
    proof {
        lemma_bits(b0, 0, 0, 0);
    }
    if b0 <= 0x7F {
        let v: u32 = (b0 & 0x7F) as u32;
        assert(v == codepoint_width_1(b0));
        match from_scalar(v) {
            Some(c) => {
                return Some((c, pos + 1));
            },
            None => {
                return None;
            },
        }
    }
    if b0 < 0xC0 || b0 > 0xF7 {
        return None;
    }
    if b0 <= 0xDF {
        if s.len() - pos < 2 {
            return None;
        }
        let b1 = s[pos + 1];
        assert(t[1] == b1);
        if b1 < 0x80 || b1 > 0xBF {
            return None;
        }
        let v: u32 = (((b0 & 0x1F) as u32) << 6u32) | ((b1 & 0x3F) as u32);
        proof {
            lemma_bits(b0, b1, 0, 0);
        }
        assert(v == codepoint_width_2(b0, b1));
        assert(v == decode_first_codepoint(t));
        if v < 0x80 {
            return None;
        }
        match from_scalar(v) {
            Some(c) => {
                return Some((c, pos + 2));
            },
            None => {
                return None;
            },
        }
    }
    if b0 <= 0xEF {
        if s.len() - pos < 3 {
            return None;
        }
        let b1 = s[pos + 1];
        let b2 = s[pos + 2];
        assert(t[1] == b1 && t[2] == b2);
        if b1 < 0x80 || b1 > 0xBF || b2 < 0x80 || b2 > 0xBF {
            return None;
        }
        let v: u32 = (((b0 & 0x0F) as u32) << 12u32) | (((b1 & 0x3F) as u32) << 6u32) | ((b2
            & 0x3F) as u32);
        proof {
            lemma_bits(b0, b1, b2, 0);
        }
        assert(v == codepoint_width_3(b0, b1, b2));
        assert(v == decode_first_codepoint(t));
        if v < 0x800 || (0xD800 <= v && v <= 0xDFFF) {
            return None;
        }
        match from_scalar(v) {
            Some(c) => {
                return Some((c, pos + 3));
            },
            None => {
                return None;
            },
        }
    }
    if s.len() - pos < 4 {
        return None;
    }
    let b1 = s[pos + 1];
    let b2 = s[pos + 2];
    let b3 = s[pos + 3];
    assert(t[1] == b1 && t[2] == b2 && t[3] == b3);
    if b1 < 0x80 || b1 > 0xBF || b2 < 0x80 || b2 > 0xBF || b3 < 0x80 || b3 > 0xBF {
        return None;
    }
    let v: u32 = (((b0 & 0x07) as u32) << 18u32) | (((b1 & 0x3F) as u32) << 12u32) | (((b2
        & 0x3F) as u32) << 6u32) | ((b3 & 0x3F) as u32);
    proof {
        lemma_bits(b0, b1, b2, b3);
    }
    assert(v == codepoint_width_4(b0, b1, b2, b3));
    assert(v == decode_first_codepoint(t));
    if v < 0x10000 || v > 0x10FFFF {
        return None;
    }
    match from_scalar(v) {
        Some(c) => Some((c, pos + 4)),
        None => None,
    }
}

/// Returns the character immediately before `pos`, or `None` at the start.
pub fn prev_char(s: &[u8], pos: usize) -> (r: Option<char>)
    ensures
        r == spec_prev_char(s@, pos as int),
{
    let start: usize = if pos >= 4 {
        pos - 4
    } else {
        0
    };
    let mut i = start;
    while i < pos
        invariant
            start <= i <= pos,
            spec_prev_char(s@, pos as int) == spec_prev_char_from(s@, i as int, pos as int),
        decreases pos - i,
    {
        match next_char(s, i) {
            Some((c, end)) => {
                if end == pos {
                    return Some(c);
                }
            },
            None => {},
        }
        i = i + 1;
    }
    None
}

/// Returns `true` if `c` is an ASCII word character (`[a-zA-Z0-9_]`).
pub fn is_word(c: char) -> (r: bool)
    ensures
        r == spec_is_word_char(c),
{
    crate::unicode::is_word_char(c)
}

/// The byte at `pos + len` of a well-formed haystack follows a whole
/// character: a character that starts on a boundary ends on one.
pub proof fn lemma_next_char_good(s: Seq<u8>, pos: int, text: bool)
    requires
        good_pos(s, pos, text),
        spec_next_char(s, pos) is Some,
    ensures
        good_pos(s, spec_next_char(s, pos).unwrap().1, text),
        pos < spec_next_char(s, pos).unwrap().1,
{
    let t = s.subrange(pos, s.len() as int);
    let e = spec_next_char(s, pos).unwrap().1;
    assert(1 <= length_of_first_scalar(t) <= 4);
    assert(e <= s.len());
    if text {
        valid_utf8_split(s, pos);
        assert(valid_utf8(t));
        let rest = pop_first_scalar(t);
        assert(valid_utf8(rest));
        if e < s.len() {
            assert(rest.len() > 0);
            assert(rest[0] == s[e]);
            assert(valid_first_scalar(rest));
            assert(!is_continuation_byte(s[e]));
            is_char_boundary_iff_not_is_continuation_byte(s, e);
        } else {
            is_char_boundary_start_end_of_seq(s);
        }
    }
}

/// An ASCII byte of well-formed text is a character of its own: there is a
/// boundary just before it and just after it.
pub proof fn lemma_ascii_boundary(s: Seq<u8>, k: int)
    requires
        valid_utf8(s),
        0 <= k < s.len(),
        s[k] < 0x80,
        s.len() <= usize::MAX,
    ensures
        is_char_boundary(s, k),
        is_char_boundary(s, k + 1),
{
    is_char_boundary_iff_not_is_continuation_byte(s, k);
    lemma_char_at_boundary(s, k);
    lemma_next_char_good(s, k, true);
    let t = s.subrange(k, s.len() as int);
    assert(t[0] == s[k]);
    assert(length_of_first_scalar(t) == 1);
}

/// An ASCII byte is a character of its own, whose code is the byte.
pub proof fn lemma_ascii_next_char(s: Seq<u8>, q: int)
    requires
        0 <= q < s.len(),
        s[q] < 0x80,
    ensures
        spec_next_char(s, q) == Some((((s[q] as u32) as char), q + 1)),
{
    let t = s.subrange(q, s.len() as int);
    let b = s[q];
    assert(t[0] == b);
    assert((b & 0x7f) == b) by (bit_vector)
        requires
            b < 0x80,
    ;
    assert(valid_first_scalar(t));
    assert(decode_first_scalar(t) == b as u32);
    assert(length_of_first_scalar(t) == 1);
}

/// A character that starts with a byte outside ASCII has a code outside
/// ASCII, and none of its bytes is ASCII.
pub proof fn lemma_non_ascii_next_char(s: Seq<u8>, q: int)
    requires
        0 <= q < s.len(),
        s[q] >= 0x80,
        spec_next_char(s, q) is Some,
    ensures
        (spec_next_char(s, q).unwrap().0 as u32) >= 0x80,
        q < spec_next_char(s, q).unwrap().1,
        forall|j: int| q <= j < spec_next_char(s, q).unwrap().1 ==> s[j] >= 0x80,
{
    let t = s.subrange(q, s.len() as int);
    assert(t[0] == s[q]);
    assert(valid_first_scalar(t));
    let v = decode_first_scalar(t);
    let w = length_of_first_scalar(t);
    assert(2 <= w <= 4);
    assert(v >= 0x80);
    assert forall|j: int| q <= j < q + w implies s[j] >= 0x80 by {
        assert(s[j] == t[j - q]);
    }
    if t.len() >= 4 {
        lemma_bits(t[0], t[1], t[2], t[3]);
    } else if t.len() >= 3 {
        lemma_bits(t[0], t[1], t[2], 0);
    } else {
        lemma_bits(t[0], t[1], 0, 0);
    }
    assert(v <= 0x10FFFF);
    assert((v as char) as u32 == v);
}

/// No boundary of well-formed text lies inside a character: none between
/// a boundary and the end of the character that starts there.
pub proof fn lemma_no_boundary_inside(s: Seq<u8>, p: int, k: int)
    requires
        valid_utf8(s),
        0 <= p < s.len(),
        spec_next_char(s, p) is Some,
        p < k < spec_next_char(s, p).unwrap().1,
    ensures
        !is_char_boundary(s, k),
{
    let t = s.subrange(p, s.len() as int);
    assert(s[k] == t[k - p]);
    assert(vstd::utf8::is_continuation_byte(s[k]));
    is_char_boundary_iff_not_is_continuation_byte(s, k);
}

/// Well-formed text has a character at every boundary before its end.
pub proof fn lemma_char_at_boundary(s: Seq<u8>, p: int)
    requires
        valid_utf8(s),
        is_char_boundary(s, p),
        0 <= p < s.len(),
    ensures
        spec_next_char(s, p) is Some,
{
    valid_utf8_split(s, p);
    let t = s.subrange(p, s.len() as int);
    assert(valid_utf8(t));
    assert(t.len() > 0);
}

/// `String::push`: appends the character `c`.
#[verifier::external_body]
pub(crate) fn push_char(s: &mut String, c: char)
    ensures
        final(s)@ == old(s)@.push(c),
{
    s.push(c);
}

/// `String::push_str`: appends the characters of `t`.
#[verifier::external_body]
pub(crate) fn push_str(s: &mut String, t: &str)
    ensures
        final(s)@ == old(s)@ + t@,
{
    s.push_str(t);
}

/// The characters of `s`, in order.
pub fn str_chars(s: &str) -> (r: Vec<char>)
    ensures
        r@ == s@,
{
    broadcast use vstd::string::axiom_spec_iter, vstd::string::next_postcondition;
    let mut it = s.chars();
    let mut v: Vec<char> = Vec::new();
    assert(it.remaining() == s@);
    loop
        invariant
            v@ + it.remaining() == s@,
            it.decrease() is Some,
        decreases it.decrease()->0,
    {
        match it.next() {
            Some(c) => {
                v.push(c);
            },
            None => {
                assert(v@ =~= s@);
                return v;
            },
        }
    }
}

/// A boundary of well-formed text at or after `a` is one of the text that
/// starts at `a`, shifted by `a`.
pub proof fn lemma_boundary_shift(bytes: Seq<u8>, a: int, b: int)
    requires
        valid_utf8(bytes),
        0 <= a <= b <= bytes.len(),
        is_char_boundary(bytes, a),
        is_char_boundary(bytes, b),
    ensures
        valid_utf8(bytes.subrange(a, bytes.len() as int)),
        is_char_boundary(bytes.subrange(a, bytes.len() as int), b - a),
{
    let rest = bytes.subrange(a, bytes.len() as int);
    valid_utf8_split(bytes, a);
    if b < bytes.len() {
        is_char_boundary_iff_not_is_continuation_byte(bytes, b);
        is_char_boundary_iff_not_is_continuation_byte(rest, b - a);
        assert(rest[b - a] == bytes[b]);
    } else {
        is_char_boundary_start_end_of_seq(rest);
    }
}

/// The part of `s` between the character boundaries `a` and `b`.
pub fn str_slice(s: &str, a: usize, b: usize) -> (r: &str)
    requires
        a <= b <= s.spec_bytes().len(),
        is_char_boundary(s.spec_bytes(), a as int),
        is_char_boundary(s.spec_bytes(), b as int),
    ensures
        r.spec_bytes() == s.spec_bytes().subrange(a as int, b as int),
{
    proof {
        encode_utf8_valid_utf8(s@);
        lemma_boundary_shift(s.spec_bytes(), a as int, b as int);
    }
    let (_, rest) = s.split_at(a);
    let (mid, _) = rest.split_at(b - a);
    assert(mid.spec_bytes() =~= s.spec_bytes().subrange(a as int, b as int));
    mid
}

} // verus!
