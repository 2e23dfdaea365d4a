use vstd::prelude::*;
use vstd::utf8::{
    decode_first_codepoint, decode_first_scalar, is_leading_byte_width_1,
    valid_first_scalar,
};
use crate::ast::{lemma_asts_view, Ast};
use crate::matcher::{
    attempt, groups_below, lemma_find_skip, spec_find_from, spec_literal_prefix,
    spec_next_literal, spec_next_is, Slots,
};
use crate::text::{lemma_bits, spec_next_char};
use crate::unicode::spec_is_ascii;

verus! {

/// `memchr::memchr`: the first index of `needle` in `haystack`, if any.
#[verifier::external_body]
pub(crate) fn memchr(needle: u8, haystack: &[u8]) -> (r: Option<usize>)
    ensures
        match r {
            Some(i) => i < haystack@.len() && haystack@[i as int] == needle && forall|j: int|
                0 <= j < i ==> haystack@[j] != needle,
            None => forall|j: int| 0 <= j < haystack@.len() ==> haystack@[j] != needle,
        },
{
    memchr::memchr(needle, haystack)
}

/// The byte every match of `a` begins with, when the tree begins with an
/// ASCII literal.
pub open spec fn spec_literal_prefix_byte(a: crate::ast::SAst) -> Option<u8> {
    match spec_literal_prefix(a) {
        Some(c) => if spec_is_ascii(c) {
            Some(c as u8)
        } else {
            None
        },
        None => None,
    }
}

/// Returns the first literal byte of `ast` if the pattern starts with an
/// ASCII literal.
pub fn literal_prefix_byte(ast: &Ast) -> (r: Option<u8>)
    ensures
        r == spec_literal_prefix_byte(ast@),
    decreases ast,
{
    match ast {
        Ast::Literal(c) => {
            if (*c as u32) < 128 {
                Some(*c as u8)
            } else {
                None
            }
        },
        Ast::Concat(nodes) => {
            proof {
                lemma_asts_view(nodes@);
            }
            if nodes.len() > 0 {
                literal_prefix_byte(&nodes[0])
            } else {
                None
            }
        },
        Ast::Group { node, .. } => literal_prefix_byte(node),
        _ => None,
    }
}

/// An ASCII character is at `pos` exactly when its byte is.
pub proof fn lemma_next_is_ascii(s: Seq<u8>, pos: int, c: char)
    requires
        spec_is_ascii(c),
        0 <= pos < s.len(),
    ensures
        spec_next_is(s, pos, c) <==> s[pos] == c as u8,
{
    let t = s.subrange(pos, s.len() as int);
    let b = s[pos];
    assert(t[0] == b);
    let cv = c as u32;
    assert(cv < 128);
    assert((c as u8) as u32 == cv);
    if is_leading_byte_width_1(b) {
        assert((b & 0x7f) == b) by (bit_vector)
            requires
                b <= 0x7f,
        ;
        assert(valid_first_scalar(t));
        assert(decode_first_scalar(t) == b as u32);
        let x = spec_next_char(s, pos).unwrap().0;
        assert(x == (b as u32) as char);
        assert(x == c <==> (x as u32) == cv);
    } else {
        assert(b >= 0x80);
        assert(b != c as u8);
        if valid_first_scalar(t) {
            let v = decode_first_codepoint(t);
            assert(v >= 0x80);
            if t.len() >= 4 {
                lemma_bits(t[0], t[1], t[2], t[3]);
            } else if t.len() >= 3 {
                lemma_bits(t[0], t[1], t[2], 0);
            } else {
                lemma_bits(t[0], t[1], 0, 0);
            }
            assert(v <= 0x10FFFF);
            let x = spec_next_char(s, pos).unwrap().0;
            assert(x == v as char);
            assert((v as char) as u32 == v);
        }
    }
}

/// The next position at or after `start`, byte by byte, where `needle` is.
proof fn lemma_next_literal_byte(s: Seq<u8>, start: int, c: char, i: int)
    requires
        spec_is_ascii(c),
        0 <= start <= i < s.len(),
        s[i] == c as u8,
        forall|j: int| start <= j < i ==> s[j] != c as u8,
    ensures
        spec_next_literal(s, start, c, false) == Some(i),
    decreases i - start,
{
    lemma_next_is_ascii(s, start, c);
    if start < i {
        lemma_next_literal_byte(s, start + 1, c, i);
    }
}

/// No position at or after `start` holds `needle`.
proof fn lemma_no_literal_byte(s: Seq<u8>, start: int, c: char)
    requires
        spec_is_ascii(c),
        0 <= start,
        forall|j: int| start <= j < s.len() ==> s[j] != c as u8,
    ensures
        spec_next_literal(s, start, c, false) is None,
    decreases s.len() - start,
{
    if start < s.len() {
        lemma_next_is_ascii(s, start, c);
        lemma_no_literal_byte(s, start + 1, c);
    }
}

/// Searches `haystack` for the leftmost match of `ast` starting no earlier than `start_at`.
///
/// Returns the populated slot vector on success, or `None` if there is no match.
/// `cap_count` must equal the number of capture groups in `ast` (not counting group 0).
/// `prefix` is an optional first-byte hint used to skip ahead quickly.
pub fn find(ast: &Ast, haystack: &[u8], cap_count: usize, start_at: usize, prefix: Option<u8>) -> (r:
    Option<Slots>)
    requires
        cap_count < usize::MAX,
        haystack@.len() < usize::MAX,
        groups_below(ast@, cap_count as nat + 1),
        prefix is None || prefix == spec_literal_prefix_byte(ast@),
    ensures
        match r {
            Some(v) => spec_find_from(ast@, haystack@, cap_count as nat, start_at as int, false)
                == Some(v@),
            None => spec_find_from(ast@, haystack@, cap_count as nat, start_at as int, false) is None,
        },
{
    let mut start = start_at;
    while start <= haystack.len()
        invariant
            cap_count < usize::MAX,
            haystack@.len() < usize::MAX,
            groups_below(ast@, cap_count as nat + 1),
            prefix is None || prefix == spec_literal_prefix_byte(ast@),
            spec_find_from(ast@, haystack@, cap_count as nat, start_at as int, false)
                == spec_find_from(ast@, haystack@, cap_count as nat, start as int, false),
        decreases haystack@.len() + 1 - start,
    {
        match prefix {
            Some(b) => {
                let ghost c = spec_literal_prefix(ast@).unwrap();
                proof {
                    lemma_find_skip(ast@, haystack@, cap_count as nat, start as int, c, false);
                }
                let (_, rest) = haystack.split_at(start);
                match memchr(b, rest) {
                    Some(i) => {
                        proof {
                            assert forall|j: int| start <= j < start + i implies haystack@[j]
                                != c as u8 by {
                                assert(rest@[j - start] == haystack@[j]);
                            }
                            assert(rest@[i as int] == haystack@[start + i]);
                            lemma_next_literal_byte(haystack@, start as int, c, start + i);
                        }
                        start = start + i;
                    },
                    None => {
                        proof {
                            assert forall|j: int| start <= j < haystack@.len() implies haystack@[j]
                                != c as u8 by {
                                assert(rest@[j - start] == haystack@[j]);
                            }
                            lemma_no_literal_byte(haystack@, start as int, c);
                        }
                        return None;
                    },
                }
            },
            None => {},
        }
        match attempt(ast, haystack, cap_count, start) {
            Some(v) => {
                return Some(v);
            },
            None => {},
        }
        start = start + 1;
    }
    None
}

} // verus!
