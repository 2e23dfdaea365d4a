use vstd::prelude::*;
use vstd::string::StringSliceAdditionalSpecFns;
use crate::regex::arch::generic::{
    find_a_plus_b, find_word_eq_digits, has_a_plus_b, has_word_eq_digits, lemma_skip,
    spec_count_a_plus_b, spec_digit_byte, spec_eq_hit,
    spec_find_a_plus_b, spec_find_word_eq_digits, spec_has_a_plus_b, spec_next_byte, spec_skip,
    spec_skip_byte, spec_word_byte, word_eq_digits_slots, ByteClass,
};
use crate::regex::arch::blocks::count_a_plus_b_blocks;
use crate::regex::slots::Slots;
use crate::unicode::str_eq;
use crate::matcher::good_slots;
use crate::text::lemma_ascii_boundary;
use vstd::utf8::valid_utf8;

verus! {

// Patterns with a dedicated byte-level search.

/// Which dedicated search, if any, a pattern has.
#[derive(Clone, Copy, Debug, PartialEq, Eq, Structural)]
pub enum Fast {
    Engine,
    APlusB,
    WordEqDigits,
}

/// The characters of the pattern `a+b`.
pub open spec fn a_plus_b_pattern() -> Seq<char> {
    seq!['a', '+', 'b']
}

/// The characters of the pattern `(\w+)=(\d+)`.
pub open spec fn word_eq_digits_pattern() -> Seq<char> {
    seq!['(', '\\', 'w', '+', ')', '=', '(', '\\', 'd', '+', ')']
}

/// The dedicated search of a pattern, by its exact text.
pub open spec fn spec_classify(pattern: Seq<char>) -> Fast {
    if pattern == a_plus_b_pattern() {
        Fast::APlusB
    } else if pattern == word_eq_digits_pattern() {
        Fast::WordEqDigits
    } else {
        Fast::Engine
    }
}

/// Picks the dedicated search of `pattern`.
pub fn classify(pattern: &str) -> (r: Fast)
    ensures
        r == spec_classify(pattern@),
{
    proof {
        reveal_strlit("a+b");
        reveal_strlit("(\\w+)=(\\d+)");
        assert("a+b"@ =~= a_plus_b_pattern());
        assert("(\\w+)=(\\d+)"@ =~= word_eq_digits_pattern());
    }
    if str_eq(pattern, "a+b") {
        Fast::APlusB
    } else if str_eq(pattern, "(\\w+)=(\\d+)") {
        Fast::WordEqDigits
    } else {
        Fast::Engine
    }
}

/// The slots of a match from `start` to `end` of a pattern without groups.
pub open spec fn whole_match_slots(start: int, end: int) -> Seq<Option<(usize, usize)>> {
    seq![Some((start as usize, end as usize))]
}

/// What the dedicated search `fast` finds in `s` from `start_at`, as the
/// slots of the match: `None` both when there is no dedicated search and
/// when it finds nothing.
pub open spec fn spec_fast_find(fast: Fast, s: Seq<u8>, start_at: int) -> Option<
    Seq<Option<(usize, usize)>>,
> {
    match fast {
        Fast::Engine => None,
        Fast::APlusB => match spec_find_a_plus_b(s, start_at) {
            Some((p, q)) => Some(whole_match_slots(p, q)),
            None => None,
        },
        Fast::WordEqDigits => match spec_find_word_eq_digits(s, start_at) {
            Some((st, we, ds, e)) => Some(word_eq_digits_slots(st, we, ds, e)),
            None => None,
        },
    }
}

/// Runs the dedicated search `fast` on `haystack` from `start_at`.
pub fn find(fast: Fast, haystack: &str, start_at: usize) -> (r: Option<Slots>)
    requires
        haystack.spec_bytes().len() < usize::MAX,
    ensures
        match spec_fast_find(fast, haystack.spec_bytes(), start_at as int) {
            Some(sl) => r matches Some(x) && x@ == sl,
            None => r is None,
        },
{
    match fast {
        Fast::Engine => None,
        Fast::APlusB => match find_a_plus_b(haystack, start_at) {
            Some(run) => {
                let mut v: Vec<Option<(usize, usize)>> = Vec::new();
                v.push(run.get(0));
                assert(v@ =~= seq![run@[0]]);
                Some(Slots::Heap(v))
            },
            None => None,
        },
        Fast::WordEqDigits => find_word_eq_digits(haystack, start_at),
    }
}

/// Whether the dedicated search `fast` finds a match in `s` from `start`:
/// for `a+b`, a `b` that an `a` comes just before; for `(\w+)=(\d+)`, an
/// `=` with a word byte before it and a digit after it. `None` when there is
/// no dedicated search.
pub open spec fn spec_fast_is_match(fast: Fast, s: Seq<u8>, start: int) -> Option<bool> {
    match fast {
        Fast::Engine => None,
        Fast::APlusB => Some(spec_has_a_plus_b(s, start)),
        Fast::WordEqDigits => Some(
            exists|k: int| start <= k < s.len() && #[trigger] spec_eq_hit(s, k),
        ),
    }
}

/// How many matches of `(\w+)=(\d+)` there are in `s` from `i`, each
/// search going on from where the match before it ended.
pub open spec fn spec_count_wed_matches(s: Seq<u8>, i: int) -> nat
    decreases s.len() - i,
{
    match spec_find_word_eq_digits(s, i) {
        Some((st, we, ds, e)) => if i < e <= s.len() {
            1 + spec_count_wed_matches(s, e)
        } else {
            1
        },
        None => 0,
    }
}

/// There are no more such matches than bytes left.
pub(crate) proof fn lemma_count_wed_fits(s: Seq<u8>, i: int)
    requires
        0 <= i <= s.len(),
    ensures
        spec_count_wed_matches(s, i) <= s.len() - i,
    decreases s.len() - i,
{
    lemma_word_eq_digits_shape(s, i);
    if let Some((st, we, ds, e)) = spec_find_word_eq_digits(s, i) {
        lemma_count_wed_fits(s, e);
    }
}

/// How many matches the dedicated search `fast` counts in `s` from `start`;
/// `None` when there is no dedicated search.
pub open spec fn spec_fast_count(fast: Fast, s: Seq<u8>, start: int) -> Option<usize> {
    match fast {
        Fast::Engine => None,
        Fast::APlusB => Some(spec_count_a_plus_b(s, start) as usize),
        Fast::WordEqDigits => Some(spec_count_wed_matches(s, start) as usize),
    }
}

/// Whether the dedicated search `fast` finds a match in `haystack` from
/// `start_at`: `None` when there is no dedicated search.
pub fn is_match(fast: Fast, haystack: &str, start_at: usize) -> (r: Option<bool>)
    requires
        start_at <= haystack.spec_bytes().len(),
    ensures
        r == spec_fast_is_match(fast, haystack.spec_bytes(), start_at as int),
{
    match fast {
        Fast::Engine => None,
        Fast::APlusB => Some(has_a_plus_b(haystack, start_at)),
        Fast::WordEqDigits => Some(has_word_eq_digits(haystack, start_at)),
    }
}

/// How many matches the dedicated search `fast` counts in `haystack` from
/// `start_at`: `None` when there is no dedicated search.
pub fn count(fast: Fast, haystack: &str, start_at: usize) -> (r: Option<usize>)
    requires
        start_at <= haystack.spec_bytes().len(),
        haystack.spec_bytes().len() < usize::MAX,
    ensures
        r == spec_fast_count(fast, haystack.spec_bytes(), start_at as int),
{
    match fast {
        Fast::Engine => None,
        Fast::APlusB => Some(count_a_plus_b(haystack, start_at)),
        Fast::WordEqDigits => Some(count_word_eq_digits(haystack, start_at)),
    }
}

/// Counts the matches of `a+b` in `haystack` from `start_at`.
fn count_a_plus_b(haystack: &str, start_at: usize) -> (r: usize)
    requires
        start_at <= haystack.spec_bytes().len(),
    ensures
        r == spec_count_a_plus_b(haystack.spec_bytes(), start_at as int),
{
    let bytes = haystack.as_bytes();
    count_a_plus_b_blocks(bytes, start_at)
}

/// Counts the matches of `(\w+)=(\d+)` in `haystack` from `start_at`,
/// each search going on from where the match before it ended.
fn count_word_eq_digits(haystack: &str, start_at: usize) -> (r: usize)
    requires
        start_at <= haystack.spec_bytes().len(),
        haystack.spec_bytes().len() < usize::MAX,
    ensures
        r == spec_count_wed_matches(haystack.spec_bytes(), start_at as int),
{
    let ghost s = haystack.spec_bytes();
    let mut i = start_at;
    let mut count: usize = 0;
    loop
        invariant
            s == haystack.spec_bytes(),
            s.len() < usize::MAX,
            start_at <= i <= s.len(),
            count <= i - start_at,
            count + spec_count_wed_matches(s, i as int) == spec_count_wed_matches(s, start_at as int),
        decreases s.len() - i,
    {
        proof {
            lemma_word_eq_digits_shape(s, i as int);
        }
        match find_word_eq_digits(haystack, i) {
            Some(slots) => {
                let end = match slots.get(0) {
                    Some((_, e)) => e,
                    None => {
                        return count;
                    },
                };
                count = count + 1;
                i = end;
            },
            None => {
                return count;
            },
        }
    }
}

// ---------------------------------------------------------------------------
// What a dedicated search finds lies on character boundaries.

pub(crate) proof fn lemma_next_byte_shape(s: Seq<u8>, i: int, b: u8)
    requires
        0 <= i,
    ensures
        spec_next_byte(s, i, b) matches Some(k) ==> i <= k < s.len() && s[k] == b,
    decreases s.len() - i,
{
    if 0 <= i < s.len() && s[i] != b {
        lemma_next_byte_shape(s, i + 1, b);
    }
}

pub(crate) proof fn lemma_skip_byte_shape(s: Seq<u8>, j: int, b: u8)
    requires
        0 <= j,
    ensures
        j <= spec_skip_byte(s, j, b),
        j <= s.len() ==> spec_skip_byte(s, j, b) <= s.len(),
        forall|k: int| j <= k < spec_skip_byte(s, j, b) ==> #[trigger] s[k] == b,
        spec_skip_byte(s, j, b) < s.len() ==> s[spec_skip_byte(s, j, b)] != b,
    decreases s.len() - j,
{
    if 0 <= j < s.len() && s[j] == b {
        lemma_skip_byte_shape(s, j + 1, b);
    }
}

/// A match of `a+b` starts at an `a` and ends just after a `b`.
pub(crate) proof fn lemma_a_plus_b_shape(s: Seq<u8>, i: int)
    requires
        0 <= i,
    ensures
        spec_find_a_plus_b(s, i) matches Some((p, q)) ==> i <= p && p + 2 <= q <= s.len() && s[p]
            == 97 && s[q - 1] == 98,
    decreases s.len() - i,
{
    if i < s.len() {
        lemma_next_byte_shape(s, i, 97);
        match spec_next_byte(s, i, 97) {
            Some(st) => {
                lemma_skip_byte_shape(s, st + 1, 97);
                let end = spec_skip_byte(s, st + 1, 97);
                if !(end < s.len() && s[end] == 98) && i < end + 1 <= s.len() {
                    lemma_a_plus_b_shape(s, end + 1);
                }
            },
            None => {},
        }
    }
}

/// A match of `(\w+)=(\d+)` starts at a word byte, goes through an `=`, and
/// ends just after a digit.
pub(crate) proof fn lemma_word_eq_digits_shape(s: Seq<u8>, i: int)
    requires
        0 <= i,
    ensures
        spec_find_word_eq_digits(s, i) matches Some((st, we, ds, e)) ==> {
            &&& i <= st < we && ds == we + 1 && ds < e <= s.len()
            &&& spec_word_byte(s[st]) && s[we] == 61 && spec_digit_byte(s[e - 1])
        },
    decreases s.len() - i,
{
    if i < s.len() {
        lemma_skip(s, i, ByteClass::Word, true);
        let st = spec_skip(s, i, ByteClass::Word, true);
        lemma_skip(s, st, ByteClass::Word, false);
        let we = spec_skip(s, st, ByteClass::Word, false);
        if st == we || we >= s.len() || s[we] != 61 {
            if i < we + 1 <= s.len() {
                lemma_word_eq_digits_shape(s, we + 1);
            }
        } else {
            assert(spec_word_byte(s[st]));
            lemma_skip(s, we + 1, ByteClass::Digit, false);
            let e = spec_skip(s, we + 1, ByteClass::Digit, false);
            if e > we + 1 {
                assert(spec_digit_byte(s[e - 1]));
            } else if i < we + 1 <= s.len() {
                lemma_word_eq_digits_shape(s, we + 1);
            }
        }
    }
}

/// What a dedicated search of well-formed text finds from `start` is a
/// match on character boundaries, starting no earlier than `start`: the
/// whole match alone for `a+b`, three groups for `(\w+)=(\d+)`.
pub proof fn lemma_fast_find_good(fast: Fast, s: Seq<u8>, start: int)
    requires
        valid_utf8(s),
        s.len() <= usize::MAX,
        0 <= start,
    ensures
        spec_fast_find(fast, s, start) matches Some(sl) ==> {
            &&& good_slots(s, sl, sl.len(), true)
            &&& sl[0] matches Some((a, b)) && start <= a
            &&& fast == Fast::APlusB ==> sl.len() == 1
            &&& fast == Fast::WordEqDigits ==> sl.len() == 3
        },
{
    match fast {
        Fast::Engine => {},
        Fast::APlusB => {
            lemma_a_plus_b_shape(s, start);
            if let Some((p, q)) = spec_find_a_plus_b(s, start) {
                lemma_ascii_boundary(s, p);
                lemma_ascii_boundary(s, q - 1);
                let sl = whole_match_slots(p, q);
                assert(good_slots(s, sl, 1, true));
            }
        },
        Fast::WordEqDigits => {
            lemma_word_eq_digits_shape(s, start);
            if let Some((st, we, ds, e)) = spec_find_word_eq_digits(s, start) {
                lemma_ascii_boundary(s, st);
                lemma_ascii_boundary(s, we);
                lemma_ascii_boundary(s, e - 1);
                let sl = word_eq_digits_slots(st, we, ds, e);
                assert(good_slots(s, sl, 3, true));
            }
        },
    }
}

} // verus!
