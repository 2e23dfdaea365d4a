use vstd::prelude::*;
use crate::regex::arch::generic::{
    add_fixed_mask_runs, bit_of, class_matches_byte, count_class_runs_scalar,
    count_fixed_class_runs_scalar, count_mask_min2_run_starts, count_mask_run_starts,
    count_min_class_runs_scalar, lemma_class_run_starts_bound, lemma_fixed_class_runs_bound,
    lemma_fixed_mask_runs_bound, lemma_min_class_runs_bound, lemma_skip, spec_bit,
    spec_class_byte, spec_class_run_starts, spec_fixed_class_runs, spec_fixed_mask_runs,
    spec_mask_min2_run_starts, spec_mask_run_starts, spec_min_class_runs,
    spec_skip, ByteClass, is_word_eq_digit_at, spec_ab_at, spec_count_a_plus_b,
    spec_count_word_eq_digits, spec_eq_hit, count_ascii_case_error_bytes, eq_ascii_case_error_at,
    lemma_count_error_bound, lemma_count_error_step, spec_count_error, spec_error_at,
};

verus! {

// Counting runs of a byte class a block of 32 bytes at a time: each block
// becomes a mask with one bit per byte, the mask is counted as a whole, and
// what the block ends with is carried into the next one. The bytes after the
// last whole block are counted one by one. Each count is proved equal to the
// count taken byte by byte.

/// The mask of the 32 bytes of `s` from `i`: bit `b` is set exactly when
/// byte `i + b` is in `class`.
pub open spec fn spec_block_mask(s: Seq<u8>, i: int, class: ByteClass, mask: u32) -> bool {
    forall|b: int| 0 <= b < 32 ==> #[trigger] spec_bit(mask, b) == spec_class_byte(s[i + b], class)
}

/// Setting bit `b` of `m` sets that bit and leaves the others.
proof fn lemma_set_bit(m: u32, b: u32, c: u32)
    requires
        b < 32,
        c < 32,
    ensures
        spec_bit(m | (1u32 << b), c as int) == (spec_bit(m, c as int) || c == b),
{
    assert((((m | (1u32 << b)) >> c) & 1u32 == 1u32) == (((m >> c) & 1u32 == 1u32) || c == b))
        by (bit_vector)
        requires
            b < 32,
            c < 32,
    ;
}

/// The mask of the 32 bytes of `bytes` from `i`.
pub fn class_mask(bytes: &[u8], i: usize, class: ByteClass) -> (r: u32)
    requires
        i + 32 <= bytes@.len(),
    ensures
        spec_block_mask(bytes@, i as int, class, r),
{
    let n = bytes.len();
    let mut m: u32 = 0;
    let mut b: u32 = 0;
    assert forall|c: int| 0 <= c < 32 implies !spec_bit(0u32, c) by {
        let cu = c as u32;
        assert((0u32 >> cu) & 1u32 == 0u32) by (bit_vector);
    }
    while b < 32
        invariant
            b <= 32,
            i + 32 <= bytes@.len(),
            n == bytes@.len(),
            forall|c: int| 0 <= c < b ==> #[trigger] spec_bit(m, c) == spec_class_byte(
                bytes@[i + c],
                class,
            ),
            forall|c: int| b <= c < 32 ==> !#[trigger] spec_bit(m, c),
        decreases 32 - b,
    {
        let hit = class_matches_byte(bytes[i + b as usize], class);
        if hit {
            proof {
                assert forall|c: int| 0 <= c < 32 implies #[trigger] spec_bit(m | (1u32 << b), c)
                    == (spec_bit(m, c) || c == b) by {
                    lemma_set_bit(m, b, c as u32);
                }
            }
            m = m | (1u32 << b);
        }
        b = b + 1;
    }
    m
}

/// Counting the run starts of a block through its mask: the starts among
/// the first `n` bytes, then the rest counted on from there.
proof fn lemma_block_run_starts(s: Seq<u8>, i: int, class: ByteClass, prev: bool, mask: u32, n: int)
    requires
        0 <= i,
        i + 32 <= s.len(),
        0 <= n <= 32,
        spec_block_mask(s, i, class, mask),
    ensures
        spec_class_run_starts(s, i, class, prev) == spec_mask_run_starts(mask, n, prev)
            + spec_class_run_starts(
            s,
            i + n,
            class,
            if n == 0 {
                prev
            } else {
                spec_class_byte(s[i + n - 1], class)
            },
        ),
    decreases n,
{
    if n > 0 {
        lemma_block_run_starts(s, i, class, prev, mask, n - 1);
        assert(spec_bit(mask, n - 1) == spec_class_byte(s[i + n - 1], class));
        if n > 1 {
            assert(spec_bit(mask, n - 2) == spec_class_byte(s[i + n - 2], class));
        }
    }
}

/// Counts where runs of `class` bytes begin from `start_at`, a block of 32
/// bytes at a time.
pub fn count_class_runs_blocks(bytes: &[u8], start_at: usize, class: ByteClass) -> (r: usize)
    requires
        start_at <= bytes@.len(),
    ensures
        r == spec_class_run_starts(bytes@, start_at as int, class, false),
{
    let mut i = start_at;
    let mut count: usize = 0;
    let mut prev = false;
    proof {
        lemma_class_run_starts_bound(bytes@, start_at as int, class, false);
    }
    while bytes.len() - i >= 32
        invariant
            start_at <= i <= bytes@.len(),
            count + spec_class_run_starts(bytes@, i as int, class, prev) == spec_class_run_starts(
                bytes@,
                start_at as int,
                class,
                false,
            ),
            spec_class_run_starts(bytes@, start_at as int, class, false) <= bytes@.len(),
        decreases bytes.len() - i,
    {
        let mask = class_mask(bytes, i, class);
        proof {
            lemma_block_run_starts(bytes@, i as int, class, prev, mask, 32);
            assert(spec_bit(mask, 31) == spec_class_byte(bytes@[i + 31], class));
        }
        let k = count_mask_run_starts(mask, 32, prev);
        count = count + k;
        prev = bit_of(mask, 31);
        i = i + 32;
    }
    let tail = count_class_runs_scalar(bytes, i, class, prev);
    count + tail
}

/// A class byte at `k` starts a run of at least two exactly when the byte
/// after it is in the class too.
proof fn lemma_run_of_two(s: Seq<u8>, k: int, class: ByteClass)
    requires
        0 <= k < s.len(),
        spec_class_byte(s[k], class),
    ensures
        (spec_skip(s, k, class, false) - k >= 2) == (k + 1 < s.len() && spec_class_byte(
            s[k + 1],
            class,
        )),
{
    lemma_skip(s, k + 1, class, false);
    if k + 1 < s.len() && spec_class_byte(s[k + 1], class) {
        lemma_skip(s, k + 2, class, false);
    }
}

/// Counting the starts of runs of at least two through a block's mask.
proof fn lemma_block_min2_run_starts(
    s: Seq<u8>,
    i: int,
    class: ByteClass,
    prev: bool,
    next: bool,
    mask: u32,
    n: int,
)
    requires
        0 <= i,
        i + 32 <= s.len(),
        0 <= n <= 32,
        spec_block_mask(s, i, class, mask),
        next == (i + 32 < s.len() && spec_class_byte(s[i + 32], class)),
    ensures
        spec_min_class_runs(s, i, class, 2, prev) == spec_mask_min2_run_starts(
            mask,
            n,
            32,
            prev,
            next,
        ) + spec_min_class_runs(
            s,
            i + n,
            class,
            2,
            if n == 0 {
                prev
            } else {
                spec_class_byte(s[i + n - 1], class)
            },
        ),
    decreases n,
{
    if n > 0 {
        lemma_block_min2_run_starts(s, i, class, prev, next, mask, n - 1);
        let k = i + n - 1;
        assert(spec_bit(mask, n - 1) == spec_class_byte(s[k], class));
        if n > 1 {
            assert(spec_bit(mask, n - 2) == spec_class_byte(s[k - 1], class));
        }
        if n < 32 {
            assert(spec_bit(mask, n) == spec_class_byte(s[k + 1], class));
        } else {
            assert(!spec_bit(mask, 32));
        }
        if spec_class_byte(s[k], class) {
            lemma_run_of_two(s, k, class);
        }
    }
}

/// Counts the runs of at least two `class` bytes that begin from
/// `start_at`, a block of 32 bytes at a time.
pub fn count_min2_class_runs_blocks(bytes: &[u8], start_at: usize, class: ByteClass) -> (r: usize)
    requires
        start_at <= bytes@.len(),
    ensures
        r == spec_min_class_runs(bytes@, start_at as int, class, 2, false),
{
    let mut i = start_at;
    let mut count: usize = 0;
    let mut prev = false;
    proof {
        lemma_min_class_runs_bound(bytes@, start_at as int, class, 2, false);
    }
    while bytes.len() - i >= 32
        invariant
            start_at <= i <= bytes@.len(),
            count + spec_min_class_runs(bytes@, i as int, class, 2, prev) == spec_min_class_runs(
                bytes@,
                start_at as int,
                class,
                2,
                false,
            ),
            spec_min_class_runs(bytes@, start_at as int, class, 2, false) <= bytes@.len(),
        decreases bytes.len() - i,
    {
        let mask = class_mask(bytes, i, class);
        let next = bytes.len() - i > 32 && class_matches_byte(bytes[i + 32], class);
        proof {
            lemma_block_min2_run_starts(bytes@, i as int, class, prev, next, mask, 32);
            assert(spec_bit(mask, 31) == spec_class_byte(bytes@[i + 31], class));
        }
        let k = count_mask_min2_run_starts(mask, 32, prev, next);
        count = count + k;
        prev = bit_of(mask, 31);
        i = i + 32;
    }
    let tail = count_min_class_runs_scalar(bytes, i, 2, class, prev);
    count + tail
}

/// Folding a block's mask into the run under way and the count so far
/// agrees with going through its bytes one by one.
proof fn lemma_block_fixed_runs(s: Seq<u8>, i: int, class: ByteClass, len: int, run: int, mask: u32, n: int)
    requires
        0 <= i,
        i + 32 <= s.len(),
        0 <= n <= 32,
        len > 0,
        spec_block_mask(s, i, class, mask),
    ensures
        spec_fixed_class_runs(s, i, class, len, run) == spec_fixed_mask_runs(mask, n, len, run).1
            + spec_fixed_class_runs(s, i + n, class, len, spec_fixed_mask_runs(mask, n, len, run).0),
    decreases n,
{
    if n > 0 {
        lemma_block_fixed_runs(s, i, class, len, run, mask, n - 1);
        assert(spec_bit(mask, n - 1) == spec_class_byte(s[i + n - 1], class));
    }
}

/// Counts whole pieces of `len` bytes in the runs of `class` bytes from
/// `start_at`, a block of 32 bytes at a time.
pub fn count_fixed_class_runs_blocks(bytes: &[u8], start_at: usize, len: usize, class: ByteClass) -> (r:
    usize)
    requires
        start_at <= bytes@.len(),
        len > 0,
    ensures
        r == spec_fixed_class_runs(bytes@, start_at as int, class, len as int, 0),
{
    let mut i = start_at;
    let mut count: usize = 0;
    let mut run: usize = 0;
    proof {
        lemma_fixed_class_runs_bound(bytes@, start_at as int, class, len as int, 0);
    }
    while bytes.len() - i >= 32
        invariant
            start_at <= i <= bytes@.len(),
            len > 0,
            run <= i - start_at,
            count + spec_fixed_class_runs(bytes@, i as int, class, len as int, run as int)
                == spec_fixed_class_runs(bytes@, start_at as int, class, len as int, 0),
            0 <= spec_fixed_class_runs(bytes@, start_at as int, class, len as int, 0) <= bytes@.len()
                - start_at,
        decreases bytes.len() - i,
    {
        let mask = class_mask(bytes, i, class);
        proof {
            lemma_block_fixed_runs(bytes@, i as int, class, len as int, run as int, mask, 32);
            lemma_fixed_mask_runs_bound(mask, 32, len as int, run as int);
            let (r2, _) = spec_fixed_mask_runs(mask, 32, len as int, run as int);
            lemma_fixed_class_runs_bound(bytes@, i + 32, class, len as int, r2);
        }
        let ghost run0 = run;
        let k = add_fixed_mask_runs(mask, 32, len, &mut run);
        proof {
            assert(run as int == spec_fixed_mask_runs(mask, 32, len as int, run0 as int).0);
        }
        count = count + k;
        i = i + 32;
    }
    let tail = count_fixed_class_runs_scalar(bytes, i, len, class, run);
    count + tail
}

/// Counts the runs of ASCII digits from `start_at`, by blocks.
pub fn count_digits(bytes: &[u8], start_at: usize) -> (r: usize)
    requires
        start_at <= bytes@.len(),
    ensures
        r == spec_class_run_starts(bytes@, start_at as int, ByteClass::Digit, false),
{
    count_class_runs_blocks(bytes, start_at, ByteClass::Digit)
}

/// Counts the runs of ASCII word bytes from `start_at`, by blocks.
pub fn count_words(bytes: &[u8], start_at: usize) -> (r: usize)
    requires
        start_at <= bytes@.len(),
    ensures
        r == spec_class_run_starts(bytes@, start_at as int, ByteClass::Word, false),
{
    count_class_runs_blocks(bytes, start_at, ByteClass::Word)
}

/// Counts the runs of ASCII letters and `_` from `start_at`, by blocks.
pub fn count_alpha_underscore(bytes: &[u8], start_at: usize) -> (r: usize)
    requires
        start_at <= bytes@.len(),
    ensures
        r == spec_class_run_starts(bytes@, start_at as int, ByteClass::AlphaUnderscore, false),
{
    count_class_runs_blocks(bytes, start_at, ByteClass::AlphaUnderscore)
}

/// Counts the whole groups of four ASCII digits in the runs of digits from
/// `start_at`, by blocks.
pub fn count_four_digits(bytes: &[u8], start_at: usize) -> (r: usize)
    requires
        start_at <= bytes@.len(),
    ensures
        r == spec_fixed_class_runs(bytes@, start_at as int, ByteClass::Digit, 4, 0),
{
    count_fixed_class_runs_blocks(bytes, start_at, 4, ByteClass::Digit)
}

/// Counts the runs of at least two ASCII word bytes from `start_at`, by
/// blocks.
pub fn count_words_min2(bytes: &[u8], start_at: usize) -> (r: usize)
    requires
        start_at <= bytes@.len(),
    ensures
        r == spec_min_class_runs(bytes@, start_at as int, ByteClass::Word, 2, false),
{
    count_min2_class_runs_blocks(bytes, start_at, ByteClass::Word)
}

/// The mask of the 32 bytes of `s` from `i` that equal `needle`.
pub open spec fn spec_eq_mask(s: Seq<u8>, i: int, needle: u8, mask: u32) -> bool {
    forall|b: int| 0 <= b < 32 ==> #[trigger] spec_bit(mask, b) == (s[i + b] == needle)
}

/// The mask of the 32 bytes of `bytes` from `i` that equal `needle`.
pub fn byte_mask(bytes: &[u8], i: usize, needle: u8) -> (r: u32)
    requires
        i + 32 <= bytes@.len(),
    ensures
        spec_eq_mask(bytes@, i as int, needle, r),
{
    let n = bytes.len();
    let mut m: u32 = 0;
    let mut b: u32 = 0;
    assert forall|c: int| 0 <= c < 32 implies !spec_bit(0u32, c) by {
        let cu = c as u32;
        assert((0u32 >> cu) & 1u32 == 0u32) by (bit_vector);
    }
    while b < 32
        invariant
            b <= 32,
            i + 32 <= bytes@.len(),
            n == bytes@.len(),
            forall|c: int| 0 <= c < b ==> #[trigger] spec_bit(m, c) == (bytes@[i + c] == needle),
            forall|c: int| b <= c < 32 ==> !#[trigger] spec_bit(m, c),
        decreases 32 - b,
    {
        if bytes[i + b as usize] == needle {
            proof {
                assert forall|c: int| 0 <= c < 32 implies #[trigger] spec_bit(m | (1u32 << b), c)
                    == (spec_bit(m, c) || c == b) by {
                    lemma_set_bit(m, b, c as u32);
                }
            }
            m = m | (1u32 << b);
        }
        b = b + 1;
    }
    m
}

/// Counts the `b` bytes from `start_at` with an `a` just before them (the
/// ends of matches of `a+b`), a block of 32 bytes at a time: each block
/// becomes the mask of its `b` bytes, and only those are looked at.
pub fn count_a_plus_b_blocks(bytes: &[u8], start_at: usize) -> (r: usize)
    requires
        start_at <= bytes@.len(),
    ensures
        r == spec_count_a_plus_b(bytes@, start_at as int),
{
    let mut i = start_at;
    let mut count: usize = 0;
    proof {
        lemma_count_ab_le(bytes@, start_at as int);
    }
    while bytes.len() - i >= 32
        invariant
            start_at <= i <= bytes@.len(),
            count + spec_count_a_plus_b(bytes@, i as int) == spec_count_a_plus_b(
                bytes@,
                start_at as int,
            ),
            spec_count_a_plus_b(bytes@, start_at as int) <= bytes@.len(),
        decreases bytes.len() - i,
    {
        let mask = byte_mask(bytes, i, 98);
        let n = bytes.len();
        let mut b: u32 = 0;
        while b < 32
            invariant
                b <= 32,
                n == bytes@.len(),
                start_at <= i,
                i + 32 <= bytes@.len(),
                spec_eq_mask(bytes@, i as int, 98, mask),
                count + spec_count_a_plus_b(bytes@, i + b) == spec_count_a_plus_b(
                    bytes@,
                    start_at as int,
                ),
                spec_count_a_plus_b(bytes@, start_at as int) <= bytes@.len(),
            decreases 32 - b,
        {
            let k = i + b as usize;
            proof {
                assert(spec_bit(mask, b as int) == (bytes@[k as int] == 98));
                lemma_count_ab_le(bytes@, k + 1);
            }
            if bit_of(mask, b) && k > 0 && bytes[k - 1] == 97 {
                assert(spec_ab_at(bytes@, k as int));
                count = count + 1;
            }
            b = b + 1;
        }
        i = i + 32;
    }
    while i < bytes.len()
        invariant
            start_at <= i <= bytes@.len(),
            count + spec_count_a_plus_b(bytes@, i as int) == spec_count_a_plus_b(
                bytes@,
                start_at as int,
            ),
            spec_count_a_plus_b(bytes@, start_at as int) <= bytes@.len(),
        decreases bytes.len() - i,
    {
        proof {
            lemma_count_ab_le(bytes@, i + 1);
        }
        if bytes[i] == 98 && i > 0 && bytes[i - 1] == 97 {
            assert(spec_ab_at(bytes@, i as int));
            count = count + 1;
        }
        i = i + 1;
    }
    count
}

proof fn lemma_count_ab_le(s: Seq<u8>, i: int)
    requires
        0 <= i <= s.len(),
    ensures
        spec_count_a_plus_b(s, i) <= s.len() - i,
    decreases s.len() - i,
{
    if i < s.len() {
        lemma_count_ab_le(s, i + 1);
    }
}

proof fn lemma_count_wed_le(s: Seq<u8>, i: int)
    requires
        0 <= i <= s.len(),
    ensures
        spec_count_word_eq_digits(s, i) <= s.len() - i,
    decreases s.len() - i,
{
    if i < s.len() {
        lemma_count_wed_le(s, i + 1);
    }
}

/// Counts the `=` bytes from `start_at` with a word byte just before them
/// and a digit just after, a block of 32 bytes at a time: each block
/// becomes the mask of its `=` bytes, and only those are looked at.
pub fn count_word_eq_digits_blocks(bytes: &[u8], start_at: usize) -> (r: usize)
    requires
        start_at <= bytes@.len(),
    ensures
        r == spec_count_word_eq_digits(bytes@, start_at as int),
{
    let mut i = start_at;
    let mut count: usize = 0;
    proof {
        lemma_count_wed_le(bytes@, start_at as int);
    }
    while bytes.len() - i >= 32
        invariant
            start_at <= i <= bytes@.len(),
            count + spec_count_word_eq_digits(bytes@, i as int) == spec_count_word_eq_digits(
                bytes@,
                start_at as int,
            ),
            spec_count_word_eq_digits(bytes@, start_at as int) <= bytes@.len(),
        decreases bytes.len() - i,
    {
        let mask = byte_mask(bytes, i, 61);
        let n = bytes.len();
        let mut b: u32 = 0;
        while b < 32
            invariant
                b <= 32,
                n == bytes@.len(),
                start_at <= i,
                i + 32 <= bytes@.len(),
                spec_eq_mask(bytes@, i as int, 61, mask),
                count + spec_count_word_eq_digits(bytes@, i + b) == spec_count_word_eq_digits(
                    bytes@,
                    start_at as int,
                ),
                spec_count_word_eq_digits(bytes@, start_at as int) <= bytes@.len(),
            decreases 32 - b,
        {
            let k = i + b as usize;
            proof {
                assert(spec_bit(mask, b as int) == (bytes@[k as int] == 61));
                lemma_count_wed_le(bytes@, k + 1);
            }
            if bit_of(mask, b) && is_word_eq_digit_at(bytes, k) {
                assert(spec_eq_hit(bytes@, k as int));
                count = count + 1;
            }
            b = b + 1;
        }
        i = i + 32;
    }
    while i < bytes.len()
        invariant
            start_at <= i <= bytes@.len(),
            count + spec_count_word_eq_digits(bytes@, i as int) == spec_count_word_eq_digits(
                bytes@,
                start_at as int,
            ),
            spec_count_word_eq_digits(bytes@, start_at as int) <= bytes@.len(),
        decreases bytes.len() - i,
    {
        proof {
            lemma_count_wed_le(bytes@, i + 1);
        }
        if bytes[i] == 61 && is_word_eq_digit_at(bytes, i) {
            assert(spec_eq_hit(bytes@, i as int));
            count = count + 1;
        }
        i = i + 1;
    }
    count
}

/// Counts the non-overlapping `error`s, in any ASCII case, from
/// `start_at`, a block of 32 bytes at a time: each block becomes the mask
/// of its `e` and `E` bytes, and only those are looked at.
pub fn count_ascii_case_error(bytes: &[u8], start_at: usize) -> (r: usize)
    ensures
        r == spec_count_error(bytes@, start_at as int),
{
    let mut i = start_at;
    let mut count: usize = 0;
    proof {
        lemma_count_error_bound(bytes@, start_at as int);
    }
    while i <= bytes.len() && bytes.len() - i >= 32
        invariant
            start_at <= i,
            count + spec_count_error(bytes@, i as int) == spec_count_error(bytes@, start_at as int),
            spec_count_error(bytes@, start_at as int) <= bytes@.len(),
        decreases bytes.len() - i,
    {
        let lower = byte_mask(bytes, i, 101);
        let upper = byte_mask(bytes, i, 69);
        let n = bytes.len();
        let mut b: u32 = 0;
        while b < 32
            invariant
                b <= 32,
                n == bytes@.len(),
                start_at <= i,
                i + 32 <= bytes@.len(),
                spec_eq_mask(bytes@, i as int, 101, lower),
                spec_eq_mask(bytes@, i as int, 69, upper),
                count + spec_count_error(bytes@, i + b) == spec_count_error(bytes@, start_at as int),
                spec_count_error(bytes@, start_at as int) <= bytes@.len(),
            decreases 32 - b,
        {
            let k = i + b as usize;
            proof {
                assert(spec_bit(lower, b as int) == (bytes@[k as int] == 101));
                assert(spec_bit(upper, b as int) == (bytes@[k as int] == 69));
                lemma_count_error_step(bytes@, k as int);
            }
            if (bit_of(lower, b) || bit_of(upper, b)) && n - k >= 5 && eq_ascii_case_error_at(bytes, k) {
                count = count + 1;
            }
            b = b + 1;
        }
        i = i + 32;
    }
    count + count_ascii_case_error_bytes(bytes, i)
}

} // verus!
