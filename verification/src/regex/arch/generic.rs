use vstd::prelude::*;
use vstd::string::StringSliceAdditionalSpecFns;
use crate::bytes::matcher::memchr;
use crate::regex::slots::Slots;

verus! {

// Byte-level searches for a few common patterns. Each works on the bytes of
// a haystack, from an offset on, and is specified by a direct description
// of what it finds or counts.

/// A class of ASCII bytes.
#[derive(Clone, Copy, Debug)]
pub enum ByteClass {
    Digit,
    Word,
    AlphaUnderscore,
}

/// `b` is an ASCII digit.
pub open spec fn spec_digit_byte(b: u8) -> bool {
    48 <= b <= 57
}

/// `b` is an ASCII letter or `_`.
pub open spec fn spec_alpha_underscore_byte(b: u8) -> bool {
    (65 <= b <= 90) || (97 <= b <= 122) || b == 95
}

/// `b` is an ASCII word byte: a letter, digit or `_`.
pub open spec fn spec_word_byte(b: u8) -> bool {
    spec_digit_byte(b) || spec_alpha_underscore_byte(b)
}

/// `b` is in the class `class`.
pub open spec fn spec_class_byte(b: u8, class: ByteClass) -> bool {
    match class {
        ByteClass::Digit => spec_digit_byte(b),
        ByteClass::Word => spec_word_byte(b),
        ByteClass::AlphaUnderscore => spec_alpha_underscore_byte(b),
    }
}

/// Returns `true` if `b` is an ASCII word byte (`[a-zA-Z0-9_]`).
pub fn is_word_byte(b: u8) -> (r: bool)
    ensures
        r == spec_word_byte(b),
{
    (48 <= b && b <= 57) || (65 <= b && b <= 90) || (97 <= b && b <= 122) || b == 95
}

/// Returns `true` if `b` is an ASCII letter or `_`.
fn is_alpha_underscore_byte(b: u8) -> (r: bool)
    ensures
        r == spec_alpha_underscore_byte(b),
{
    (65 <= b && b <= 90) || (97 <= b && b <= 122) || b == 95
}

/// Returns `true` if `b` is in `class`.
pub fn class_matches_byte(b: u8, class: ByteClass) -> (r: bool)
    ensures
        r == spec_class_byte(b, class),
{
    match class {
        ByteClass::Digit => 48 <= b && b <= 57,
        ByteClass::Word => is_word_byte(b),
        ByteClass::AlphaUnderscore => is_alpha_underscore_byte(b),
    }
}

/// The first position at or after `i` whose byte is in `class` exactly when
/// `want`, or the end.
pub open spec fn spec_skip(s: Seq<u8>, i: int, class: ByteClass, want: bool) -> int
    decreases s.len() - i,
{
    if i < s.len() && spec_class_byte(s[i], class) != want {
        spec_skip(s, i + 1, class, want)
    } else {
        i
    }
}

/// Where the run of `class` bytes that starts at or after `i` begins, and
/// where it ends.
pub open spec fn spec_next_run(s: Seq<u8>, i: int, class: ByteClass) -> (int, int) {
    let p = spec_skip(s, i, class, true);
    (p, spec_skip(s, p, class, false))
}

pub(crate) proof fn lemma_skip(s: Seq<u8>, i: int, class: ByteClass, want: bool)
    requires
        0 <= i,
    ensures
        i <= spec_skip(s, i, class, want),
        i <= s.len() ==> spec_skip(s, i, class, want) <= s.len(),
        spec_skip(s, i, class, want) < s.len() ==> spec_class_byte(
            s[spec_skip(s, i, class, want)],
            class,
        ) == want,
        forall|k: int| i <= k < spec_skip(s, i, class, want) ==> spec_class_byte(#[trigger] s[k], class) != want,
    decreases s.len() - i,
{
    if i < s.len() && spec_class_byte(s[i], class) != want {
        lemma_skip(s, i + 1, class, want);
    }
}

/// The first position at or after `i` whose byte is in `class` exactly when `want`.
fn skip(s: &[u8], i: usize, class: ByteClass, want: bool) -> (r: usize)
    requires
        i <= s@.len(),
    ensures
        r == spec_skip(s@, i as int, class, want),
        i <= r <= s@.len(),
{
    let mut k = i;
    while k < s.len() && class_matches_byte(s[k], class) != want
        invariant
            i <= k <= s@.len(),
            spec_skip(s@, i as int, class, want) == spec_skip(s@, k as int, class, want),
        decreases s.len() - k,
    {
        k = k + 1;
    }
    k
}

/// The slots of a match spanning `start..end`, with no groups.
pub open spec fn run_slots(start: int, end: int) -> Seq<Option<(usize, usize)>> {
    seq![Some((start as usize, end as usize)), None, None]
}

fn one_span(start: usize, end: usize) -> (r: Slots)
    ensures
        r@ == run_slots(start as int, end as int),
{
    let r = Slots::Inline3([Some((start, end)), None, None]);
    assert(r@ =~= run_slots(start as int, end as int));
    r
}

/// The first run of `class` bytes of length at least `min`, looking at the
/// runs that start at or after `i` (a run cut by `i` counts from `i`).
pub open spec fn spec_min_run(s: Seq<u8>, i: int, class: ByteClass, min: int) -> Option<(int, int)>
    decreases s.len() - i,
{
    if i < 0 || i >= s.len() {
        None
    } else {
        let (p, q) = spec_next_run(s, i, class);
        if q - p >= min {
            Some((p, q))
        } else if i < q <= s.len() {
            spec_min_run(s, q, class, min)
        } else {
            None
        }
    }
}

/// Finds the first run of `class` bytes of length at least `min` from `start_at`.
fn find_min_run(bytes: &[u8], start_at: usize, min: usize, class: ByteClass) -> (r: Option<Slots>)
    ensures
        match spec_min_run(bytes@, start_at as int, class, min as int) {
            Some((p, q)) => r matches Some(sl) && sl@ == run_slots(p, q),
            None => r is None,
        },
{
    let mut i = start_at;
    while i < bytes.len()
        invariant
            start_at <= i,
            spec_min_run(bytes@, start_at as int, class, min as int) == spec_min_run(
                bytes@,
                i as int,
                class,
                min as int,
            ),
        decreases bytes.len() - i,
    {
        let start = skip(bytes, i, class, true);
        let end = skip(bytes, start, class, false);
        if end - start >= min {
            return Some(one_span(start, end));
        }
        proof {
            lemma_skip(bytes@, i as int, class, true);
            lemma_skip(bytes@, start as int, class, false);
        }
        i = end;
    }
    None
}

/// Finds the first run of `class` bytes from `start_at`.
fn find_run(bytes: &[u8], start_at: usize, class: ByteClass) -> (r: Option<Slots>)
    ensures
        match spec_min_run(bytes@, start_at as int, class, 1) {
            Some((p, q)) => r matches Some(sl) && sl@ == run_slots(p, q),
            None => r is None,
        },
{
    find_min_run(bytes, start_at, 1, class)
}

/// The first run of `class` bytes of length at least `n`, from `i` on,
/// cut to its first `n` bytes.
pub open spec fn spec_fixed_run(s: Seq<u8>, i: int, class: ByteClass, n: int) -> Option<(int, int)>
    decreases s.len() - i,
{
    if i < 0 || i + n > s.len() {
        None
    } else {
        let (p, q) = spec_next_run(s, i, class);
        if q - p >= n {
            Some((p, p + n))
        } else if i < q <= s.len() {
            spec_fixed_run(s, q, class, n)
        } else {
            None
        }
    }
}

/// Finds the first `n` bytes of the first run of `class` bytes that has at
/// least `n`, from `start_at`.
fn find_fixed_run(bytes: &[u8], start_at: usize, n: usize, class: ByteClass) -> (r: Option<Slots>)
    requires
        bytes@.len() < usize::MAX,
    ensures
        match spec_fixed_run(bytes@, start_at as int, class, n as int) {
            Some((p, q)) => r matches Some(sl) && sl@ == run_slots(p, q),
            None => r is None,
        },
{
    let mut i = start_at;
    while i <= bytes.len() && n <= bytes.len() - i
        invariant
            start_at <= i,
            bytes@.len() < usize::MAX,
            spec_fixed_run(bytes@, start_at as int, class, n as int) == spec_fixed_run(
                bytes@,
                i as int,
                class,
                n as int,
            ),
        decreases bytes.len() + 1 - i,
    {
        let start = skip(bytes, i, class, true);
        let end = skip(bytes, start, class, false);
        if end - start >= n {
            return Some(one_span(start, start + n));
        }
        proof {
            lemma_skip(bytes@, i as int, class, true);
            lemma_skip(bytes@, start as int, class, false);
        }
        if end <= i {
            return None;
        }
        i = end;
    }
    None
}

/// The number of runs of `class` bytes of length at least `min` from `i` on.
pub open spec fn spec_count_min_runs(s: Seq<u8>, i: int, class: ByteClass, min: int) -> nat
    decreases s.len() - i,
{
    if i < 0 || i >= s.len() {
        0
    } else {
        let (p, q) = spec_next_run(s, i, class);
        if i < q <= s.len() {
            (if q - p >= min {
                1nat
            } else {
                0nat
            }) + spec_count_min_runs(s, q, class, min)
        } else {
            0
        }
    }
}

proof fn lemma_count_min_runs_bound(s: Seq<u8>, i: int, class: ByteClass, min: int)
    requires
        0 <= i <= s.len(),
    ensures
        spec_count_min_runs(s, i, class, min) <= s.len() - i,
    decreases s.len() - i,
{
    if i < s.len() {
        lemma_skip(s, i, class, true);
        let p = spec_skip(s, i, class, true);
        lemma_skip(s, p, class, false);
        let q = spec_skip(s, p, class, false);
        if i < q {
            lemma_count_min_runs_bound(s, q, class, min);
        }
    }
}

/// Counts the runs of `class` bytes of length at least `min` from `start_at`.
fn count_min_runs(bytes: &[u8], start_at: usize, min: usize, class: ByteClass) -> (r: usize)
    ensures
        r == spec_count_min_runs(bytes@, start_at as int, class, min as int),
{
    if start_at >= bytes.len() {
        return 0;
    }
    let mut i = start_at;
    let mut count: usize = 0;
    proof {
        lemma_count_min_runs_bound(bytes@, start_at as int, class, min as int);
    }
    while i < bytes.len()
        invariant
            start_at <= i <= bytes@.len(),
            count + spec_count_min_runs(bytes@, i as int, class, min as int) == spec_count_min_runs(
                bytes@,
                start_at as int,
                class,
                min as int,
            ),
            spec_count_min_runs(bytes@, start_at as int, class, min as int) <= bytes@.len(),
        decreases bytes.len() - i,
    {
        let start = skip(bytes, i, class, true);
        let end = skip(bytes, start, class, false);
        proof {
            lemma_skip(bytes@, i as int, class, true);
            lemma_skip(bytes@, start as int, class, false);
            lemma_count_min_runs_bound(bytes@, end as int, class, min as int);
        }
        if end - start >= min {
            count = count + 1;
        }
        i = end;
    }
    count
}

/// Counts the runs of `class` bytes from `start_at`.
fn count_runs(bytes: &[u8], start_at: usize, class: ByteClass) -> (r: usize)
    ensures
        r == spec_count_min_runs(bytes@, start_at as int, class, 1),
{
    count_min_runs(bytes, start_at, 1, class)
}

/// The sum, over the runs of `class` bytes from `i` on, of how many whole
/// pieces of `n` bytes each holds.
pub open spec fn spec_count_fixed_runs(s: Seq<u8>, i: int, class: ByteClass, n: int) -> int
    decreases s.len() - i,
{
    if i < 0 || i >= s.len() || n <= 0 {
        0
    } else {
        let (p, q) = spec_next_run(s, i, class);
        if i < q <= s.len() {
            (q - p) / n + spec_count_fixed_runs(s, q, class, n)
        } else {
            0
        }
    }
}

proof fn lemma_count_fixed_runs_bound(s: Seq<u8>, i: int, class: ByteClass, n: int)
    requires
        0 <= i <= s.len(),
        n > 0,
    ensures
        0 <= spec_count_fixed_runs(s, i, class, n) <= s.len() - i,
    decreases s.len() - i,
{
    if i < s.len() {
        lemma_skip(s, i, class, true);
        let p = spec_skip(s, i, class, true);
        lemma_skip(s, p, class, false);
        let q = spec_skip(s, p, class, false);
        if i < q {
            lemma_count_fixed_runs_bound(s, q, class, n);
            assert((q - p) / n <= q - p) by (nonlinear_arith)
                requires
                    n > 0,
                    q - p >= 0,
            ;
        }
    }
}

/// Counts the whole pieces of `n` bytes in the runs of `class` bytes from `start_at`.
fn count_fixed_runs(bytes: &[u8], start_at: usize, n: usize, class: ByteClass) -> (r: usize)
    requires
        n > 0,
    ensures
        r == spec_count_fixed_runs(bytes@, start_at as int, class, n as int),
{
    if start_at >= bytes.len() {
        return 0;
    }
    let mut i = start_at;
    let mut count: usize = 0;
    proof {
        lemma_count_fixed_runs_bound(bytes@, start_at as int, class, n as int);
    }
    while i < bytes.len()
        invariant
            start_at <= i <= bytes@.len(),
            n > 0,
            count + spec_count_fixed_runs(bytes@, i as int, class, n as int)
                == spec_count_fixed_runs(bytes@, start_at as int, class, n as int),
            spec_count_fixed_runs(bytes@, start_at as int, class, n as int) <= bytes@.len(),
        decreases bytes.len() - i,
    {
        let start = skip(bytes, i, class, true);
        let end = skip(bytes, start, class, false);
        proof {
            lemma_skip(bytes@, i as int, class, true);
            lemma_skip(bytes@, start as int, class, false);
            lemma_count_fixed_runs_bound(bytes@, end as int, class, n as int);
        }
        count = count + (end - start) / n;
        i = end;
    }
    count
}

/// Finds the first run of ASCII digits from `start_at`.
pub fn find_digits(s: &str, start_at: usize) -> (r: Option<Slots>)
    ensures
        match spec_min_run(s.spec_bytes(), start_at as int, ByteClass::Digit, 1) {
            Some((p, q)) => r matches Some(sl) && sl@ == run_slots(p, q),
            None => r is None,
        },
{
    find_run(s.as_bytes(), start_at, ByteClass::Digit)
}

/// Finds the first run of ASCII word bytes from `start_at`.
pub fn find_words(s: &str, start_at: usize) -> (r: Option<Slots>)
    ensures
        match spec_min_run(s.spec_bytes(), start_at as int, ByteClass::Word, 1) {
            Some((p, q)) => r matches Some(sl) && sl@ == run_slots(p, q),
            None => r is None,
        },
{
    find_run(s.as_bytes(), start_at, ByteClass::Word)
}

/// Finds the first run of ASCII letters and `_` from `start_at`.
pub fn find_alpha_underscore(s: &str, start_at: usize) -> (r: Option<Slots>)
    ensures
        match spec_min_run(s.spec_bytes(), start_at as int, ByteClass::AlphaUnderscore, 1) {
            Some((p, q)) => r matches Some(sl) && sl@ == run_slots(p, q),
            None => r is None,
        },
{
    find_run(s.as_bytes(), start_at, ByteClass::AlphaUnderscore)
}

/// Finds the first four digits of the first run of at least four ASCII
/// digits from `start_at`.
pub fn find_four_digits(s: &str, start_at: usize) -> (r: Option<Slots>)
    requires
        s.spec_bytes().len() < usize::MAX,
    ensures
        match spec_fixed_run(s.spec_bytes(), start_at as int, ByteClass::Digit, 4) {
            Some((p, q)) => r matches Some(sl) && sl@ == run_slots(p, q),
            None => r is None,
        },
{
    find_fixed_run(s.as_bytes(), start_at, 4, ByteClass::Digit)
}

/// Finds the first run of at least two ASCII word bytes from `start_at`.
pub fn find_words_min2(s: &str, start_at: usize) -> (r: Option<Slots>)
    ensures
        match spec_min_run(s.spec_bytes(), start_at as int, ByteClass::Word, 2) {
            Some((p, q)) => r matches Some(sl) && sl@ == run_slots(p, q),
            None => r is None,
        },
{
    find_min_run(s.as_bytes(), start_at, 2, ByteClass::Word)
}

/// Counts the runs of ASCII digits from `start_at`.
pub fn count_digits_bytes(bytes: &[u8], start_at: usize) -> (r: usize)
    ensures
        r == spec_count_min_runs(bytes@, start_at as int, ByteClass::Digit, 1),
{
    count_runs(bytes, start_at, ByteClass::Digit)
}

/// Counts the runs of ASCII word bytes from `start_at`.
pub fn count_words_bytes(bytes: &[u8], start_at: usize) -> (r: usize)
    ensures
        r == spec_count_min_runs(bytes@, start_at as int, ByteClass::Word, 1),
{
    count_runs(bytes, start_at, ByteClass::Word)
}

/// Counts the runs of ASCII letters and `_` from `start_at`.
pub fn count_alpha_underscore_bytes(bytes: &[u8], start_at: usize) -> (r: usize)
    ensures
        r == spec_count_min_runs(bytes@, start_at as int, ByteClass::AlphaUnderscore, 1),
{
    count_runs(bytes, start_at, ByteClass::AlphaUnderscore)
}

/// Counts the non-overlapping groups of four ASCII digits from `start_at`.
pub fn count_four_digits_bytes(bytes: &[u8], start_at: usize) -> (r: usize)
    ensures
        r == spec_count_fixed_runs(bytes@, start_at as int, ByteClass::Digit, 4),
{
    count_fixed_runs(bytes, start_at, 4, ByteClass::Digit)
}

/// Counts the runs of at least two ASCII word bytes from `start_at`.
pub fn count_words_min2_bytes(bytes: &[u8], start_at: usize) -> (r: usize)
    ensures
        r == spec_count_min_runs(bytes@, start_at as int, ByteClass::Word, 2),
{
    count_min_runs(bytes, start_at, 2, ByteClass::Word)
}

// ---------------------------------------------------------------------------
// Searching with `memchr`.

/// The first position at or after `i` holding the byte `b`.
pub open spec fn spec_next_byte(s: Seq<u8>, i: int, b: u8) -> Option<int>
    decreases s.len() - i,
{
    if i < 0 || i >= s.len() {
        None
    } else if s[i] == b {
        Some(i)
    } else {
        spec_next_byte(s, i + 1, b)
    }
}

proof fn lemma_next_byte_found(s: Seq<u8>, i: int, b: u8, k: int)
    requires
        0 <= i <= k < s.len(),
        s[k] == b,
        forall|j: int| i <= j < k ==> s[j] != b,
    ensures
        spec_next_byte(s, i, b) == Some(k),
    decreases k - i,
{
    if i < k {
        lemma_next_byte_found(s, i + 1, b, k);
    }
}

proof fn lemma_next_byte_none(s: Seq<u8>, i: int, b: u8)
    requires
        0 <= i,
        forall|j: int| i <= j < s.len() ==> s[j] != b,
    ensures
        spec_next_byte(s, i, b) is None,
    decreases s.len() - i,
{
    if i < s.len() {
        lemma_next_byte_none(s, i + 1, b);
    }
}

/// The first position at or after `i` holding `b`, found with `memchr`.
fn next_byte(s: &[u8], i: usize, b: u8) -> (r: Option<usize>)
    requires
        i <= s@.len(),
    ensures
        match r {
            Some(k) => spec_next_byte(s@, i as int, b) == Some(k as int) && i <= k < s@.len()
                && s@[k as int] == b && forall|j: int| i <= j < k ==> s@[j] != b,
            None => spec_next_byte(s@, i as int, b) is None && forall|j: int|
                i <= j < s@.len() ==> s@[j] != b,
        },
{
    let n = s.len();
    let (_, rest) = s.split_at(i);
    match memchr(b, rest) {
        Some(rel) => {
            proof {
                assert forall|j: int| i <= j < i + rel implies s@[j] != b by {
                    assert(rest@[j - i] == s@[j]);
                }
                assert(rest@[rel as int] == s@[i + rel]);
                lemma_next_byte_found(s@, i as int, b, i + rel);
            }
            Some(i + rel)
        },
        None => {
            proof {
                assert forall|j: int| i <= j < s@.len() implies s@[j] != b by {
                    assert(rest@[j - i] == s@[j]);
                }
                lemma_next_byte_none(s@, i as int, b);
            }
            None
        },
    }
}

/// The first position at or after `i` not holding the byte `b`, or the end.
pub open spec fn spec_skip_byte(s: Seq<u8>, i: int, b: u8) -> int
    decreases s.len() - i,
{
    if 0 <= i < s.len() && s[i] == b {
        spec_skip_byte(s, i + 1, b)
    } else {
        i
    }
}

/// The first match of `a+b` from `i` on: a run of `a` bytes started no
/// earlier than `i` and followed by `b`.
pub open spec fn spec_find_a_plus_b(s: Seq<u8>, i: int) -> Option<(int, int)>
    decreases s.len() - i,
{
    if i < 0 || i >= s.len() {
        None
    } else {
        match spec_next_byte(s, i, 97) {
            None => None,
            Some(st) => {
                let end = spec_skip_byte(s, st + 1, 97);
                if end < s.len() && s[end] == 98 {
                    Some((st, end + 1))
                } else if i < end + 1 <= s.len() {
                    spec_find_a_plus_b(s, end + 1)
                } else {
                    None
                }
            },
        }
    }
}

/// Finds the first match of `a+b` from `start_at`.
pub fn find_a_plus_b(s: &str, start_at: usize) -> (r: Option<Slots>)
    requires
        s.spec_bytes().len() < usize::MAX,
    ensures
        match spec_find_a_plus_b(s.spec_bytes(), start_at as int) {
            Some((p, q)) => r matches Some(sl) && sl@ == run_slots(p, q),
            None => r is None,
        },
{
    let bytes = s.as_bytes();
    let mut i = start_at;
    while i < bytes.len()
        invariant
            start_at <= i,
            bytes@ == s.spec_bytes(),
            bytes@.len() < usize::MAX,
            spec_find_a_plus_b(bytes@, start_at as int) == spec_find_a_plus_b(bytes@, i as int),
        decreases bytes.len() - i,
    {
        let start = match next_byte(bytes, i, 97) {
            Some(k) => k,
            None => {
                return None;
            },
        };
        let mut end = start + 1;
        while end < bytes.len() && bytes[end] == 97
            invariant
                start < end <= bytes@.len(),
                spec_skip_byte(bytes@, start + 1, 97) == spec_skip_byte(bytes@, end as int, 97),
            decreases bytes.len() - end,
        {
            end = end + 1;
        }
        if end < bytes.len() && bytes[end] == 98 {
            return Some(one_span(start, end + 1));
        }
        if end >= bytes.len() {
            return None;
        }
        i = end + 1;
    }
    None
}

/// A `b` at `k` ends a match of `a+b`: an `a` comes just before it.
pub open spec fn spec_ab_at(s: Seq<u8>, k: int) -> bool {
    0 < k < s.len() && s[k] == 98 && s[k - 1] == 97
}

/// Some `b` at or after `i` ends a match of `a+b`.
pub open spec fn spec_has_a_plus_b(s: Seq<u8>, i: int) -> bool {
    exists|k: int| i <= k < s.len() && #[trigger] spec_ab_at(s, k)
}

/// Returns `true` if a match of `a+b` ends at a `b` at or after `start_at`.
pub fn has_a_plus_b(s: &str, start_at: usize) -> (r: bool)
    requires
        start_at <= s.spec_bytes().len(),
    ensures
        r == spec_has_a_plus_b(s.spec_bytes(), start_at as int),
{
    let bytes = s.as_bytes();
    let mut i = start_at;
    loop
        invariant
            start_at <= i <= bytes@.len(),
            bytes@ == s.spec_bytes(),
            forall|k: int| start_at <= k < i ==> !#[trigger] spec_ab_at(bytes@, k),
        decreases bytes.len() - i,
    {
        match next_byte(bytes, i, 98) {
            Some(b) => {
                if b > 0 && bytes[b - 1] == 97 {
                    assert(spec_ab_at(bytes@, b as int));
                    return true;
                }
                i = b + 1;
            },
            None => {
                return false;
            },
        }
    }
}

/// The number of `b` bytes at or after `i` that end a match of `a+b`.
pub open spec fn spec_count_a_plus_b(s: Seq<u8>, i: int) -> nat
    decreases s.len() - i,
{
    if i < 0 || i >= s.len() {
        0
    } else {
        (if spec_ab_at(s, i) {
            1nat
        } else {
            0nat
        }) + spec_count_a_plus_b(s, i + 1)
    }
}

proof fn lemma_count_ab_skip(s: Seq<u8>, i: int, j: int)
    requires
        0 <= i <= j <= s.len(),
        forall|k: int| i <= k < j ==> s[k] != 98,
    ensures
        spec_count_a_plus_b(s, i) == spec_count_a_plus_b(s, j),
    decreases j - i,
{
    if i < j {
        lemma_count_ab_skip(s, i + 1, j);
    }
}

proof fn lemma_count_ab_bound(s: Seq<u8>, i: int)
    requires
        0 <= i <= s.len(),
    ensures
        spec_count_a_plus_b(s, i) <= s.len() - i,
    decreases s.len() - i,
{
    if i < s.len() {
        lemma_count_ab_bound(s, i + 1);
    }
}

/// Counts the `b` bytes at or after `start_at` that end a match of `a+b`.
pub fn count_a_plus_b_bytes(bytes: &[u8], start_at: usize) -> (r: usize)
    requires
        start_at <= bytes@.len(),
    ensures
        r == spec_count_a_plus_b(bytes@, start_at as int),
{
    let mut i = start_at;
    let mut count: usize = 0;
    proof {
        lemma_count_ab_bound(bytes@, start_at as int);
    }
    loop
        invariant
            start_at <= i <= bytes@.len(),
            count + spec_count_a_plus_b(bytes@, i as int) == spec_count_a_plus_b(
                bytes@,
                start_at as int,
            ),
            spec_count_a_plus_b(bytes@, start_at as int) <= bytes@.len(),
        decreases bytes.len() - i,
    {
        match next_byte(bytes, i, 98) {
            Some(b) => {
                proof {
                    lemma_count_ab_skip(bytes@, i as int, b as int);
                }
                if b > 0 && bytes[b - 1] == 97 {
                    count = count + 1;
                }
                i = b + 1;
            },
            None => {
                proof {
                    lemma_count_ab_skip(bytes@, i as int, bytes@.len() as int);
                }
                return count;
            },
        }
    }
}

/// The first match of `(\w+)=(\d+)` from `i` on, as the spans of the whole
/// match, the word and the digits.
pub open spec fn spec_find_word_eq_digits(s: Seq<u8>, i: int) -> Option<(int, int, int, int)>
    decreases s.len() - i,
{
    if i < 0 || i >= s.len() {
        None
    } else {
        let st = spec_skip(s, i, ByteClass::Word, true);
        let we = spec_skip(s, st, ByteClass::Word, false);
        if st == we || we >= s.len() || s[we] != 61 {
            if i < we + 1 <= s.len() {
                spec_find_word_eq_digits(s, we + 1)
            } else {
                None
            }
        } else {
            let e = spec_skip(s, we + 1, ByteClass::Digit, false);
            if e > we + 1 {
                Some((st, we, we + 1, e))
            } else if i < we + 1 <= s.len() {
                spec_find_word_eq_digits(s, we + 1)
            } else {
                None
            }
        }
    }
}

/// The slots of a match of `(\\w+)=(\\d+)`: the whole, the word, the digits.
pub open spec fn word_eq_digits_slots(st: int, we: int, ds: int, e: int) -> Seq<
    Option<(usize, usize)>,
> {
    seq![Some((st as usize, e as usize)), Some((st as usize, we as usize)), Some((ds as usize, e as usize))]
}

/// Finds the first match of `(\w+)=(\d+)` from `start_at`.
pub fn find_word_eq_digits(s: &str, start_at: usize) -> (r: Option<Slots>)
    ensures
        match spec_find_word_eq_digits(s.spec_bytes(), start_at as int) {
            Some((st, we, ds, e)) => r matches Some(sl) && sl@ == word_eq_digits_slots(st, we, ds, e),
            None => r is None,
        },
{
    let bytes = s.as_bytes();
    let mut i = start_at;
    while i < bytes.len()
        invariant
            start_at <= i,
            bytes@ == s.spec_bytes(),
            spec_find_word_eq_digits(bytes@, start_at as int) == spec_find_word_eq_digits(
                bytes@,
                i as int,
            ),
        decreases bytes.len() - i,
    {
        let start = skip(bytes, i, ByteClass::Word, true);
        let word_end = skip(bytes, start, ByteClass::Word, false);
        if start == word_end || word_end >= bytes.len() || bytes[word_end] != 61 {
            if word_end >= bytes.len() {
                return None;
            }
            i = word_end + 1;
        } else {
            let digits_start = word_end + 1;
            let end = skip(bytes, digits_start, ByteClass::Digit, false);
            if end > digits_start {
                let r = Slots::Inline3(
                    [Some((start, end)), Some((start, word_end)), Some((digits_start, end))],
                );
                assert(r@ =~= word_eq_digits_slots(
                    start as int,
                    word_end as int,
                    digits_start as int,
                    end as int,
                ));
                return Some(r);
            }
            i = digits_start;
        }
    }
    None
}

/// An `=` at `eq` ends a word and starts digits: a match of `(\w+)=(\d+)`
/// goes through it.
pub open spec fn spec_word_eq_digit_at(s: Seq<u8>, eq: int) -> bool {
    0 < eq && eq + 1 < s.len() && spec_word_byte(s[eq - 1]) && spec_digit_byte(s[eq + 1])
}

/// Returns `true` if a word byte comes just before `eq` and a digit just after.
pub fn is_word_eq_digit_at(bytes: &[u8], eq: usize) -> (r: bool)
    ensures
        r == spec_word_eq_digit_at(bytes@, eq as int),
{
    eq > 0 && eq < bytes.len() && bytes.len() - eq > 1 && is_word_byte(bytes[eq - 1]) && 48
        <= bytes[eq + 1] && bytes[eq + 1] <= 57
}

/// An `=` at or after `i` that a match of `(\w+)=(\d+)` goes through.
pub open spec fn spec_eq_hit(s: Seq<u8>, k: int) -> bool {
    s[k] == 61 && spec_word_eq_digit_at(s, k)
}

/// Returns `true` if a match of `(\w+)=(\d+)` goes through an `=` at or
/// after `start_at`.
pub fn has_word_eq_digits(s: &str, start_at: usize) -> (r: bool)
    requires
        start_at <= s.spec_bytes().len(),
    ensures
        r == exists|k: int|
            start_at <= k < s.spec_bytes().len() && #[trigger] spec_eq_hit(s.spec_bytes(), k),
{
    let bytes = s.as_bytes();
    let mut i = start_at;
    loop
        invariant
            start_at <= i <= bytes@.len(),
            bytes@ == s.spec_bytes(),
            forall|k: int| start_at <= k < i ==> !#[trigger] spec_eq_hit(bytes@, k),
        decreases bytes.len() - i,
    {
        match next_byte(bytes, i, 61) {
            Some(eq) => {
                if is_word_eq_digit_at(bytes, eq) {
                    assert(spec_eq_hit(bytes@, eq as int));
                    return true;
                }
                i = eq + 1;
            },
            None => {
                return false;
            },
        }
    }
}

/// The number of `=` bytes at or after `i` with a word byte just before
/// and a digit just after: each lies in some match of `(\w+)=(\d+)`, though
/// matches taken one after another from `i` may pass over some of them.
pub open spec fn spec_count_word_eq_digits(s: Seq<u8>, i: int) -> nat
    decreases s.len() - i,
{
    if i < 0 || i >= s.len() {
        0
    } else {
        (if spec_eq_hit(s, i) {
            1nat
        } else {
            0nat
        }) + spec_count_word_eq_digits(s, i + 1)
    }
}

proof fn lemma_count_wed_skip(s: Seq<u8>, i: int, j: int)
    requires
        0 <= i <= j <= s.len(),
        forall|k: int| i <= k < j ==> s[k] != 61,
    ensures
        spec_count_word_eq_digits(s, i) == spec_count_word_eq_digits(s, j),
    decreases j - i,
{
    if i < j {
        lemma_count_wed_skip(s, i + 1, j);
    }
}

proof fn lemma_count_wed_bound(s: Seq<u8>, i: int)
    requires
        0 <= i <= s.len(),
    ensures
        spec_count_word_eq_digits(s, i) <= s.len() - i,
    decreases s.len() - i,
{
    if i < s.len() {
        lemma_count_wed_bound(s, i + 1);
    }
}

/// Counts the `=` bytes at or after `start_at` with a word byte just before
/// and a digit just after.
pub fn count_word_eq_digits_bytes(bytes: &[u8], start_at: usize) -> (r: usize)
    requires
        start_at <= bytes@.len(),
    ensures
        r == spec_count_word_eq_digits(bytes@, start_at as int),
{
    let mut i = start_at;
    let mut count: usize = 0;
    proof {
        lemma_count_wed_bound(bytes@, start_at as int);
    }
    loop
        invariant
            start_at <= i <= bytes@.len(),
            count + spec_count_word_eq_digits(bytes@, i as int) == spec_count_word_eq_digits(
                bytes@,
                start_at as int,
            ),
            spec_count_word_eq_digits(bytes@, start_at as int) <= bytes@.len(),
        decreases bytes.len() - i,
    {
        match next_byte(bytes, i, 61) {
            Some(eq) => {
                proof {
                    lemma_count_wed_skip(bytes@, i as int, eq as int);
                }
                if is_word_eq_digit_at(bytes, eq) {
                    count = count + 1;
                }
                i = eq + 1;
            },
            None => {
                proof {
                    lemma_count_wed_skip(bytes@, i as int, bytes@.len() as int);
                }
                return count;
            },
        }
    }
}

// ---------------------------------------------------------------------------
// `(?i)error`.

/// The ASCII lowercase form of the byte `b`.
pub open spec fn spec_lower(b: u8) -> u8 {
    if 65 <= b <= 90 {
        (b + 32) as u8
    } else {
        b
    }
}

/// `a` and `b` are equal ignoring ASCII case.
pub open spec fn spec_eq_ignore_case(a: u8, b: u8) -> bool {
    spec_lower(a) == spec_lower(b)
}

/// The five bytes at `i` spell `error` in any ASCII case.
pub open spec fn spec_error_at(s: Seq<u8>, i: int) -> bool {
    &&& 0 <= i && i + 5 <= s.len()
    &&& spec_lower(s[i]) == 101
    &&& spec_lower(s[i + 1]) == 114
    &&& spec_lower(s[i + 2]) == 114
    &&& spec_lower(s[i + 3]) == 111
    &&& spec_lower(s[i + 4]) == 114
}

fn eq_ignore_case_byte(a: u8, b: u8) -> (r: bool)
    ensures
        r == spec_eq_ignore_case(a, b),
{
    let la: u8 = if 65 <= a && a <= 90 {
        a + 32
    } else {
        a
    };
    let lb: u8 = if 65 <= b && b <= 90 {
        b + 32
    } else {
        b
    };
    la == lb
}

/// Returns `true` if the five bytes at `i` spell `error` in any ASCII case.
pub fn eq_ascii_case_error_at(bytes: &[u8], i: usize) -> (r: bool)
    requires
        i + 5 <= bytes@.len(),
    ensures
        r == spec_error_at(bytes@, i as int),
{
    eq_ignore_case_byte(bytes[i], 101) && eq_ignore_case_byte(bytes[i + 1], 114)
        && eq_ignore_case_byte(bytes[i + 2], 114) && eq_ignore_case_byte(bytes[i + 3], 111)
        && eq_ignore_case_byte(bytes[i + 4], 114)
}

/// `a` and `b` hold the same bytes, ignoring ASCII case.
fn eq_ignore_ascii_case(a: &[u8], b: &[u8]) -> (r: bool)
    ensures
        r == (a@.len() == b@.len() && forall|k: int|
            0 <= k < a@.len() ==> spec_eq_ignore_case(#[trigger] a@[k], b@[k])),
{
    if a.len() != b.len() {
        return false;
    }
    let mut k: usize = 0;
    while k < a.len()
        invariant
            a@.len() == b@.len(),
            k <= a@.len(),
            forall|j: int| 0 <= j < k ==> spec_eq_ignore_case(#[trigger] a@[j], b@[j]),
        decreases a.len() - k,
    {
        if !eq_ignore_case_byte(a[k], b[k]) {
            return false;
        }
        k = k + 1;
    }
    true
}

/// Whether the five bytes at `i` spell `error` in any ASCII case, compared
/// as a slice against `error`.
fn error_at(bytes: &[u8], i: usize) -> (r: bool)
    requires
        i + 5 <= bytes@.len(),
    ensures
        r == spec_error_at(bytes@, i as int),
{
    let (_, rest) = bytes.split_at(i);
    let (five, _) = rest.split_at(5);
    let word: [u8; 5] = [101, 114, 114, 111, 114];
    let r = eq_ignore_ascii_case(five, word.as_slice());
    proof {
        assert(five@ =~= bytes@.subrange(i as int, i + 5));
        assert(word@ =~= seq![101u8, 114u8, 114u8, 111u8, 114u8]);
        if r {
            assert(spec_eq_ignore_case(five@[0], word@[0]));
            assert(spec_eq_ignore_case(five@[1], word@[1]));
            assert(spec_eq_ignore_case(five@[2], word@[2]));
            assert(spec_eq_ignore_case(five@[3], word@[3]));
            assert(spec_eq_ignore_case(five@[4], word@[4]));
        }
        if spec_error_at(bytes@, i as int) {
            assert forall|k: int| 0 <= k < five@.len() implies spec_eq_ignore_case(
                #[trigger] five@[k],
                word@[k],
            ) by {
                assert(five@[k] == bytes@[i + k]);
            }
        }
    }
    r
}

/// The first position at or after `i` where `error` is spelled in any ASCII case.
pub open spec fn spec_find_error(s: Seq<u8>, i: int) -> Option<int>
    decreases s.len() - i,
{
    if i < 0 || i + 5 > s.len() {
        None
    } else if spec_error_at(s, i) {
        Some(i)
    } else {
        spec_find_error(s, i + 1)
    }
}

/// `error` in any case starts with `e` or `E`.
proof fn lemma_error_starts_with_e(s: Seq<u8>, i: int)
    requires
        spec_error_at(s, i),
    ensures
        s[i] == 101 || s[i] == 69,
{
}

/// Positions that hold neither `e` nor `E` start no `error`.
proof fn lemma_find_error_skip(s: Seq<u8>, i: int, j: int)
    requires
        0 <= i <= j,
        forall|k: int| i <= k < j && k < s.len() ==> s[k] != 101 && s[k] != 69,
    ensures
        spec_find_error(s, i) == spec_find_error(s, j),
    decreases j - i,
{
    if i < j {
        if i + 5 <= s.len() && spec_error_at(s, i) {
            lemma_error_starts_with_e(s, i);
        }
        lemma_find_error_skip(s, i + 1, j);
        if i + 5 > s.len() {
            assert(spec_find_error(s, i + 1) is None);
            if j + 5 <= s.len() {
                assert(false);
            }
        }
    }
}

/// The next `e` or `E` at or after `i`.
fn next_e(bytes: &[u8], i: usize) -> (r: Option<usize>)
    requires
        i <= bytes@.len(),
    ensures
        match r {
            Some(k) => i <= k < bytes@.len() && (bytes@[k as int] == 101 || bytes@[k as int] == 69)
                && forall|j: int| i <= j < k ==> bytes@[j] != 101 && bytes@[j] != 69,
            None => forall|j: int| i <= j < bytes@.len() ==> bytes@[j] != 101 && bytes@[j] != 69,
        },
{
    let r1 = next_byte(bytes, i, 101);
    let r2 = next_byte(bytes, i, 69);
    match (r1, r2) {
        (Some(a), Some(b)) => {
            if a < b {
                Some(a)
            } else {
                Some(b)
            }
        },
        (Some(a), None) => Some(a),
        (None, Some(b)) => Some(b),
        (None, None) => None,
    }
}

/// Finds the first `error`, in any ASCII case, from `start_at`.
pub fn find_ascii_case_error(s: &str, start_at: usize) -> (r: Option<Slots>)
    ensures
        match spec_find_error(s.spec_bytes(), start_at as int) {
            Some(p) => r matches Some(sl) && sl@ == run_slots(p, p + 5),
            None => r is None,
        },
{
    let bytes = s.as_bytes();
    let mut i = start_at;
    while i <= bytes.len() && bytes.len() - i >= 5
        invariant
            start_at <= i,
            bytes@ == s.spec_bytes(),
            spec_find_error(bytes@, start_at as int) == spec_find_error(bytes@, i as int),
        decreases bytes.len() - i,
    {
        let k = match next_e(bytes, i) {
            Some(k) => k,
            None => {
                proof {
                    lemma_find_error_skip(bytes@, i as int, bytes@.len() as int);
                }
                return None;
            },
        };
        proof {
            lemma_find_error_skip(bytes@, i as int, k as int);
        }
        i = k;
        if bytes.len() - i >= 5 && error_at(bytes, i) {
            return Some(one_span(i, i + 5));
        }
        i = i + 1;
    }
    None
}

/// The number of non-overlapping `error`s, in any ASCII case, from `i` on,
/// counted left to right.
pub open spec fn spec_count_error(s: Seq<u8>, i: int) -> nat
    decreases s.len() - i,
{
    if i < 0 || i + 5 > s.len() {
        0
    } else if spec_error_at(s, i) {
        1 + spec_count_error(s, i + 5)
    } else {
        spec_count_error(s, i + 1)
    }
}

proof fn lemma_count_error_skip(s: Seq<u8>, i: int, j: int)
    requires
        0 <= i <= j,
        forall|k: int| i <= k < j && k < s.len() ==> s[k] != 101 && s[k] != 69,
    ensures
        spec_count_error(s, i) == spec_count_error(s, j),
    decreases j - i,
{
    if i < j {
        if i + 5 <= s.len() && spec_error_at(s, i) {
            lemma_error_starts_with_e(s, i);
        }
        lemma_count_error_skip(s, i + 1, j);
        if i + 5 > s.len() {
            assert(spec_count_error(s, i + 1) == 0);
            if j + 5 <= s.len() {
                assert(false);
            }
        }
    }
}

pub(crate) proof fn lemma_count_error_bound(s: Seq<u8>, i: int)
    requires
        0 <= i,
    ensures
        spec_count_error(s, i) <= s.len(),
    decreases s.len() - i,
{
    if i + 5 <= s.len() {
        if spec_error_at(s, i) {
            lemma_count_error_bound(s, i + 5);
            lemma_count_error_small(s, i + 5);
        } else {
            lemma_count_error_bound(s, i + 1);
        }
    }
}

proof fn lemma_count_error_small(s: Seq<u8>, i: int)
    requires
        0 <= i,
    ensures
        spec_count_error(s, i) + i <= s.len() || spec_count_error(s, i) == 0,
    decreases s.len() - i,
{
    if i + 5 <= s.len() {
        if spec_error_at(s, i) {
            lemma_count_error_small(s, i + 5);
        } else {
            lemma_count_error_small(s, i + 1);
        }
    }
}

/// Counting `error`s position by position: one starts at `k` or not, and
/// the count goes on from `k + 1`, since no `error` starts inside another.
pub(crate) proof fn lemma_count_error_step(s: Seq<u8>, k: int)
    requires
        0 <= k,
    ensures
        spec_count_error(s, k) == (if spec_error_at(s, k) {
            1nat
        } else {
            0nat
        }) + spec_count_error(s, k + 1),
{
    if spec_error_at(s, k) {
        lemma_count_error_skip(s, k + 1, k + 5);
    } else if k + 5 > s.len() {
        assert(spec_count_error(s, k + 1) == 0);
    }
}

/// Counts the non-overlapping `error`s, in any ASCII case, from `start_at`.
pub fn count_ascii_case_error_bytes(bytes: &[u8], start_at: usize) -> (r: usize)
    ensures
        r == spec_count_error(bytes@, start_at as int),
{
    let mut i = start_at;
    let mut count: usize = 0;
    proof {
        lemma_count_error_small(bytes@, start_at as int);
    }
    while i <= bytes.len() && bytes.len() - i >= 5
        invariant
            start_at <= i,
            count + spec_count_error(bytes@, i as int) == spec_count_error(bytes@, start_at as int),
            spec_count_error(bytes@, start_at as int) + start_at <= bytes@.len()
                || spec_count_error(bytes@, start_at as int) == 0,
        decreases bytes.len() - i,
    {
        let k = match next_e(bytes, i) {
            Some(k) => k,
            None => {
                proof {
                    lemma_count_error_skip(bytes@, i as int, bytes@.len() as int);
                }
                return count;
            },
        };
        proof {
            lemma_count_error_skip(bytes@, i as int, k as int);
        }
        i = k;
        if bytes.len() - i >= 5 && error_at(bytes, i) {
            count = count + 1;
            i = i + 5;
        } else {
            i = i + 1;
        }
    }
    proof {
        if !(i <= bytes@.len()) {
            assert(spec_count_error(bytes@, i as int) == 0);
        }
    }
    count
}

// ---------------------------------------------------------------------------
// Counting runs of a class, carrying state from what came before.

/// The number of positions from `i` on where a run of `class` bytes begins,
/// `prev` telling whether the byte before `i` was in the class.
pub open spec fn spec_class_run_starts(s: Seq<u8>, i: int, class: ByteClass, prev: bool) -> nat
    decreases s.len() - i,
{
    if i < 0 || i >= s.len() {
        0
    } else {
        let hit = spec_class_byte(s[i], class);
        (if hit && !prev {
            1nat
        } else {
            0nat
        }) + spec_class_run_starts(s, i + 1, class, hit)
    }
}

pub(crate) proof fn lemma_class_run_starts_bound(s: Seq<u8>, i: int, class: ByteClass, prev: bool)
    requires
        0 <= i <= s.len(),
    ensures
        spec_class_run_starts(s, i, class, prev) <= s.len() - i,
    decreases s.len() - i,
{
    if i < s.len() {
        lemma_class_run_starts_bound(s, i + 1, class, spec_class_byte(s[i], class));
    }
}

/// Counts where runs of `class` bytes begin from `start_at`; `prev` tells
/// whether the byte before `start_at` was in the class.
pub fn count_class_runs_scalar(bytes: &[u8], start_at: usize, class: ByteClass, prev: bool) -> (r:
    usize)
    requires
        start_at <= bytes@.len(),
    ensures
        r == spec_class_run_starts(bytes@, start_at as int, class, prev),
{
    let mut count: usize = 0;
    let mut last = prev;
    let mut i = start_at;
    proof {
        lemma_class_run_starts_bound(bytes@, start_at as int, class, prev);
    }
    while i < bytes.len()
        invariant
            start_at <= i <= bytes@.len(),
            count + spec_class_run_starts(bytes@, i as int, class, last) == spec_class_run_starts(
                bytes@,
                start_at as int,
                class,
                prev,
            ),
            spec_class_run_starts(bytes@, start_at as int, class, prev) <= bytes@.len(),
        decreases bytes.len() - i,
    {
        let hit = class_matches_byte(bytes[i], class);
        if hit && !last {
            count = count + 1;
        }
        last = hit;
        i = i + 1;
    }
    count
}

/// The number of runs of `class` bytes of length at least `min` that begin
/// at or after `i`; `prev` tells whether the byte before `i` was in the
/// class (a run already under way at `i` is not counted).
pub open spec fn spec_min_class_runs(
    s: Seq<u8>,
    i: int,
    class: ByteClass,
    min: int,
    prev: bool,
) -> nat
    decreases s.len() - i,
{
    if i < 0 || i >= s.len() {
        0
    } else {
        let hit = spec_class_byte(s[i], class);
        (if hit && !prev && spec_skip(s, i, class, false) - i >= min {
            1nat
        } else {
            0nat
        }) + spec_min_class_runs(s, i + 1, class, min, hit)
    }
}

pub(crate) proof fn lemma_min_class_runs_bound(s: Seq<u8>, i: int, class: ByteClass, min: int, prev: bool)
    requires
        0 <= i <= s.len(),
    ensures
        spec_min_class_runs(s, i, class, min, prev) <= s.len() - i,
    decreases s.len() - i,
{
    if i < s.len() {
        lemma_min_class_runs_bound(s, i + 1, class, min, spec_class_byte(s[i], class));
    }
}

/// Inside a run, with the run already under way, nothing is counted.
proof fn lemma_min_class_runs_inside(s: Seq<u8>, k: int, e: int, class: ByteClass, min: int)
    requires
        0 <= k <= e <= s.len(),
        forall|j: int| k <= j < e ==> spec_class_byte(#[trigger] s[j], class),
    ensures
        spec_min_class_runs(s, k, class, min, true) == spec_min_class_runs(s, e, class, min, true),
    decreases e - k,
{
    if k < e {
        assert(spec_class_byte(s[k], class));
        lemma_min_class_runs_inside(s, k + 1, e, class, min);
    }
}

/// Counts the runs of `class` bytes of length at least `min` that begin at
/// or after `start_at`; `prev` tells whether the byte before `start_at` was
/// in the class.
pub fn count_min_class_runs_scalar(
    bytes: &[u8],
    start_at: usize,
    min: usize,
    class: ByteClass,
    prev: bool,
) -> (r: usize)
    ensures
        r == spec_min_class_runs(bytes@, start_at as int, class, min as int, prev),
{
    if start_at >= bytes.len() {
        return 0;
    }
    let mut count: usize = 0;
    let mut last = prev;
    let mut i = start_at;
    proof {
        lemma_min_class_runs_bound(bytes@, start_at as int, class, min as int, prev);
    }
    while i < bytes.len()
        invariant
            start_at <= i <= bytes@.len(),
            count + spec_min_class_runs(bytes@, i as int, class, min as int, last)
                == spec_min_class_runs(bytes@, start_at as int, class, min as int, prev),
            spec_min_class_runs(bytes@, start_at as int, class, min as int, prev) <= bytes@.len(),
        decreases bytes.len() - i,
    {
        proof {
            lemma_min_class_runs_bound(bytes@, i as int, class, min as int, last);
        }
        if !class_matches_byte(bytes[i], class) {
            last = false;
            i = i + 1;
        } else if last {
            i = i + 1;
        } else {
            let start = i;
            let end = skip(bytes, i, class, false);
            proof {
                lemma_skip(bytes@, i as int, class, false);
                lemma_min_class_runs_inside(bytes@, i + 1, end as int, class, min as int);
                lemma_min_class_runs_bound(bytes@, end as int, class, min as int, true);
            }
            if end - start >= min {
                count = count + 1;
            }
            last = true;
            i = end;
        }
    }
    count
}

/// Goes through the bytes from `i` on with `run` class bytes already seen in
/// a row, and adds up, over each run as it ends (at a byte not in the class
/// or at the end), how many whole pieces of `n` bytes it holds.
pub open spec fn spec_fixed_class_runs(s: Seq<u8>, i: int, class: ByteClass, n: int, run: int) -> int
    decreases s.len() - i,
{
    if i < 0 || i >= s.len() {
        run / n
    } else if spec_class_byte(s[i], class) {
        spec_fixed_class_runs(s, i + 1, class, n, run + 1)
    } else {
        run / n + spec_fixed_class_runs(s, i + 1, class, n, 0)
    }
}

pub(crate) proof fn lemma_div_le(a: int, n: int)
    requires
        a >= 0,
        n > 0,
    ensures
        0 <= a / n <= a,
{
    assert(0 <= a / n <= a) by (nonlinear_arith)
        requires
            a >= 0,
            n > 0,
    ;
}

pub(crate) proof fn lemma_fixed_class_runs_bound(s: Seq<u8>, i: int, class: ByteClass, n: int, run: int)
    requires
        0 <= i <= s.len(),
        n > 0,
        run >= 0,
    ensures
        0 <= spec_fixed_class_runs(s, i, class, n, run) <= run + s.len() - i,
    decreases s.len() - i,
{
    lemma_div_le(run, n);
    if i < s.len() {
        if spec_class_byte(s[i], class) {
            lemma_fixed_class_runs_bound(s, i + 1, class, n, run + 1);
        } else {
            lemma_fixed_class_runs_bound(s, i + 1, class, n, 0);
        }
    }
}

/// Counts whole pieces of `len` bytes in the runs of `class` bytes from
/// `start_at` on, `run` class bytes having been seen in a row just before.
pub fn count_fixed_class_runs_scalar(
    bytes: &[u8],
    start_at: usize,
    len: usize,
    class: ByteClass,
    run: usize,
) -> (r: usize)
    requires
        start_at <= bytes@.len(),
        len > 0,
        run + (bytes@.len() - start_at) <= usize::MAX,
    ensures
        r == spec_fixed_class_runs(bytes@, start_at as int, class, len as int, run as int),
{
    let mut count: usize = 0;
    let mut cur = run;
    let mut i = start_at;
    proof {
        lemma_fixed_class_runs_bound(bytes@, start_at as int, class, len as int, run as int);
    }
    while i < bytes.len()
        invariant
            start_at <= i <= bytes@.len(),
            len > 0,
            cur <= run + (i - start_at),
            run + (bytes@.len() - start_at) <= usize::MAX,
            count + spec_fixed_class_runs(bytes@, i as int, class, len as int, cur as int)
                == spec_fixed_class_runs(bytes@, start_at as int, class, len as int, run as int),
            0 <= spec_fixed_class_runs(bytes@, i as int, class, len as int, cur as int),
            spec_fixed_class_runs(bytes@, start_at as int, class, len as int, run as int) <= run + (
            bytes@.len() - start_at),
        decreases bytes.len() - i,
    {
        if class_matches_byte(bytes[i], class) {
            proof {
                lemma_fixed_class_runs_bound(bytes@, i + 1, class, len as int, cur + 1);
            }
            cur = cur + 1;
        } else {
            proof {
                lemma_div_le(cur as int, len as int);
                lemma_fixed_class_runs_bound(bytes@, i + 1, class, len as int, 0);
            }
            count = count + cur / len;
            cur = 0;
        }
        i = i + 1;
    }
    proof {
        lemma_div_le(cur as int, len as int);
    }
    count + cur / len
}

// ---------------------------------------------------------------------------
// Counting over the bits of a match mask: bit `b` stands for the byte at
// offset `b` of a block, and is set when that byte is in the class.

/// Bit `b` of `x` is set.
pub open spec fn spec_bit(x: u32, b: int) -> bool {
    0 <= b < 32 && (x >> (b as u32)) & 1u32 == 1u32
}

/// The number of bits `b < n` at which a run of set bits of `mask` begins,
/// bit `0` continuing a run when `prev`.
pub open spec fn spec_mask_run_starts(mask: u32, n: int, prev: bool) -> nat
    decreases n,
{
    if n <= 0 {
        0
    } else {
        let b = n - 1;
        let before = if b == 0 {
            prev
        } else {
            spec_bit(mask, b - 1)
        };
        spec_mask_run_starts(mask, b, prev) + (if spec_bit(mask, b) && !before {
            1nat
        } else {
            0nat
        })
    }
}

pub(crate) fn bit_of(x: u32, b: u32) -> (r: bool)
    requires
        b < 32,
    ensures
        r == spec_bit(x, b as int),
{
    (x >> b) & 1 == 1
}

/// Counts the bits below `width` at which a run of set bits of `mask`
/// begins; `prev_match` tells whether the byte before the block was in the
/// class.
pub fn count_mask_run_starts(mask: u32, width: u32, prev_match: bool) -> (r: usize)
    requires
        width <= 32,
    ensures
        r == spec_mask_run_starts(mask, width as int, prev_match),
{
    let mut count: usize = 0;
    let mut b: u32 = 0;
    while b < width
        invariant
            b <= width <= 32,
            count == spec_mask_run_starts(mask, b as int, prev_match),
            count <= b,
        decreases width - b,
    {
        let before = if b == 0 {
            prev_match
        } else {
            bit_of(mask, b - 1)
        };
        if bit_of(mask, b) && !before {
            count = count + 1;
        }
        b = b + 1;
    }
    count
}

/// The number of bits `b < n` at which a run of set bits of `mask` of at
/// least two bits begins: bit `b` is set, the bit before it is not (or, for
/// bit `0`, not `prev`), and the bit after it is set (the bit after bit
/// `width - 1` counting as set when `next`).
pub open spec fn spec_mask_min2_run_starts(mask: u32, n: int, width: int, prev: bool, next: bool) -> nat
    decreases n,
{
    if n <= 0 {
        0
    } else {
        let b = n - 1;
        let before = if b == 0 {
            prev
        } else {
            spec_bit(mask, b - 1)
        };
        let after = spec_bit(mask, b + 1) || (b == width - 1 && next);
        spec_mask_min2_run_starts(mask, b, width, prev, next) + (if spec_bit(mask, b) && !before
            && after {
            1nat
        } else {
            0nat
        })
    }
}

/// Counts the bits below `width` at which a run of at least two set bits of
/// `mask` begins; `prev_match` tells whether the byte before the block was
/// in the class, `next_match` whether the byte after it is.
pub fn count_mask_min2_run_starts(mask: u32, width: u32, prev_match: bool, next_match: bool) -> (r:
    usize)
    requires
        1 <= width <= 32,
    ensures
        r == spec_mask_min2_run_starts(mask, width as int, width as int, prev_match, next_match),
{
    let mut count: usize = 0;
    let mut b: u32 = 0;
    while b < width
        invariant
            b <= width <= 32,
            count == spec_mask_min2_run_starts(mask, b as int, width as int, prev_match, next_match),
            count <= b,
        decreases width - b,
    {
        let before = if b == 0 {
            prev_match
        } else {
            bit_of(mask, b - 1)
        };
        let after = (b < 31 && bit_of(mask, b + 1)) || (b == width - 1 && next_match);
        if bit_of(mask, b) && !before && after {
            count = count + 1;
        }
        b = b + 1;
    }
    count
}


/// Bits `0` to `n - 1` of `mask` are all set.
pub open spec fn spec_low_bits_set(mask: u32, n: int) -> bool {
    forall|b: int| 0 <= b < n ==> #[trigger] spec_bit(mask, b)
}

/// Goes through bits `0` to `n - 1` of `mask` with `run` class bytes already
/// seen in a row; gives the length of the run under way after them, and
/// the sum, over each run that a clear bit ends, of how many whole pieces
/// of `len` bytes it holds.
pub open spec fn spec_fixed_mask_runs(mask: u32, n: int, len: int, run: int) -> (int, int)
    decreases n,
{
    if n <= 0 {
        (run, 0)
    } else {
        let (r, c) = spec_fixed_mask_runs(mask, n - 1, len, run);
        if spec_bit(mask, n - 1) {
            (r + 1, c)
        } else {
            (0, c + r / len)
        }
    }
}

proof fn lemma_fixed_mask_runs_all_set(mask: u32, n: int, len: int, run: int)
    requires
        0 <= n <= 32,
        spec_low_bits_set(mask, n),
    ensures
        spec_fixed_mask_runs(mask, n, len, run) == (run + n, 0int),
    decreases n,
{
    if n > 0 {
        assert(spec_bit(mask, n - 1));
        lemma_fixed_mask_runs_all_set(mask, n - 1, len, run);
    }
}

proof fn lemma_fixed_mask_runs_none_set(mask: u32, n: int, len: int, run: int)
    requires
        1 <= n <= 32,
        len > 0,
        forall|b: int| 0 <= b < n ==> !#[trigger] spec_bit(mask, b),
    ensures
        spec_fixed_mask_runs(mask, n, len, run) == (0int, run / len),
    decreases n,
{
    assert(!spec_bit(mask, n - 1));
    if n == 1 {
        assert(spec_fixed_mask_runs(mask, 0, len, run) == (run, 0int));
    } else {
        lemma_fixed_mask_runs_none_set(mask, n - 1, len, run);
        assert(0int / len == 0) by (nonlinear_arith)
            requires
                len > 0,
        ;
    }
}

pub(crate) proof fn lemma_fixed_mask_runs_bound(mask: u32, n: int, len: int, run: int)
    requires
        0 <= n <= 32,
        len > 0,
        run >= 0,
    ensures
        0 <= spec_fixed_mask_runs(mask, n, len, run).0 <= run + n,
        0 <= spec_fixed_mask_runs(mask, n, len, run).1 <= run + n,
        spec_fixed_mask_runs(mask, n, len, run).0 + spec_fixed_mask_runs(mask, n, len, run).1
            <= run + n,
    decreases n,
{
    if n > 0 {
        lemma_fixed_mask_runs_bound(mask, n - 1, len, run);
        let (r, c) = spec_fixed_mask_runs(mask, n - 1, len, run);
        lemma_div_le(r, len);
    }
}

/// The bits below `width` of `mask` are those of `used`, the mask of the
/// low `width` bits.
proof fn lemma_used_bits(mask: u32, width: u32, used: u32, b: u32)
    requires
        b < width <= 32,
        width == 32 ==> used == 0xffff_ffffu32,
        width < 32 ==> used == ((1u32 << width) - 1u32) as u32,
    ensures
        (mask & used) == used ==> spec_bit(mask, b as int),
        (mask & used) == 0 ==> !spec_bit(mask, b as int),
{
    if width == 32 {
        assert((mask & used) == used ==> (mask >> b) & 1u32 == 1u32) by (bit_vector)
            requires
                b < 32,
                used == 0xffff_ffffu32,
        ;
        assert((mask & used) == 0 ==> (mask >> b) & 1u32 == 0u32) by (bit_vector)
            requires
                b < 32,
                used == 0xffff_ffffu32,
        ;
    } else {
        assert((mask & used) == used ==> (mask >> b) & 1u32 == 1u32) by (bit_vector)
            requires
                b < width,
                width < 32,
                used == ((1u32 << width) - 1u32) as u32,
        ;
        assert((mask & used) == 0 ==> (mask >> b) & 1u32 == 0u32) by (bit_vector)
            requires
                b < width,
                width < 32,
                used == ((1u32 << width) - 1u32) as u32,
        ;
    }
}

/// Goes through bits `0` to `width - 1` of `mask` in order, with `*run`
/// class bytes seen in a row before them: a set bit extends the run, a
/// clear bit ends it. Returns the sum, over the runs that end, of how many
/// whole pieces of `len` bytes each holds, and leaves in `*run` the length
/// of the run under way after the last bit.
pub fn add_fixed_mask_runs(mask: u32, width: u32, len: usize, run: &mut usize) -> (r: usize)
    requires
        width <= 32,
        *old(run) + width <= usize::MAX,
        !spec_low_bits_set(mask, width as int) ==> len > 0,
    ensures
        (*final(run) as int, r as int) == spec_fixed_mask_runs(
            mask,
            width as int,
            len as int,
            *old(run) as int,
        ),
{
    let used: u32 = if width == 32 {
        u32::MAX
    } else {
        assert(1u32 << width >= 1u32 && (width == 0 ==> (1u32 << width) - 1u32 == 0u32))
            by (bit_vector)
            requires
                width < 32,
        ;
        (1u32 << width) - 1
    };
    let masked = mask & used;
    if masked == used {
        proof {
            assert forall|b: int| 0 <= b < width implies #[trigger] spec_bit(mask, b) by {
                lemma_used_bits(mask, width, used, b as u32);
            }
            lemma_fixed_mask_runs_all_set(mask, width as int, len as int, *run as int);
        }
        *run = *run + width as usize;
        return 0;
    }
    if masked == 0 {
        proof {
            assert forall|b: int| 0 <= b < width implies !#[trigger] spec_bit(mask, b) by {
                lemma_used_bits(mask, width, used, b as u32);
            }
            assert(width >= 1);
            assert(!spec_bit(mask, 0));
            assert(!spec_low_bits_set(mask, width as int));
            lemma_fixed_mask_runs_none_set(mask, width as int, len as int, *run as int);
        }
        let count = *run / len;
        *run = 0;
        return count;
    }
    let ghost run0: int = *run as int;
    let mut count: usize = 0;
    let mut b: u32 = 0;
    while b < width
        invariant
            b <= width <= 32,
            run0 + width <= usize::MAX,
            !spec_low_bits_set(mask, width as int) ==> len > 0,
            (*run as int, count as int) == spec_fixed_mask_runs(mask, b as int, len as int, run0),
            *run + count <= run0 + b,
        decreases width - b,
    {
        if bit_of(mask, b) {
            *run = *run + 1;
        } else {
            proof {
                assert(!spec_low_bits_set(mask, width as int));
                lemma_div_le(*run as int, len as int);
            }
            count = count + *run / len;
            *run = 0;
        }
        b = b + 1;
    }
    count
}


} // verus!
