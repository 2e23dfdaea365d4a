use regex::regex::arch::generic::{
    add_fixed_mask_runs, class_matches_byte, count_a_plus_b_bytes, count_alpha_underscore_bytes,
    count_ascii_case_error_bytes, count_class_runs_scalar, count_digits_bytes,
    count_fixed_class_runs_scalar, count_four_digits_bytes, count_mask_min2_run_starts,
    count_mask_run_starts, count_min_class_runs_scalar, count_word_eq_digits_bytes,
    count_words_bytes, count_words_min2_bytes, eq_ascii_case_error_at, find_a_plus_b,
    find_alpha_underscore, find_ascii_case_error, find_digits, find_four_digits,
    find_word_eq_digits, find_words, find_words_min2, has_a_plus_b, has_word_eq_digits,
    is_word_byte, is_word_eq_digit_at, ByteClass,
};
use regex::regex::arch::blocks::{
    count_ascii_case_error, class_mask, count_alpha_underscore, count_digits, count_four_digits, count_words,
    count_words_min2,
};
use regex::regex::fast::{classify, count, find, is_match, Fast};
use regex::regex::slots::Slots;

fn span(s: &Option<Slots>, i: usize) -> Option<(usize, usize)> {
    match s {
        Some(sl) => sl.get(i),
        None => None,
    }
}

#[test]
fn byte_classes() {
    assert!(is_word_byte(b'a'));
    assert!(is_word_byte(b'Z'));
    assert!(is_word_byte(b'7'));
    assert!(is_word_byte(b'_'));
    assert!(!is_word_byte(b'-'));
    assert!(!is_word_byte(0xC3));
    assert!(class_matches_byte(b'5', ByteClass::Digit));
    assert!(!class_matches_byte(b'a', ByteClass::Digit));
    assert!(class_matches_byte(b'_', ByteClass::AlphaUnderscore));
    assert!(!class_matches_byte(b'5', ByteClass::AlphaUnderscore));
    assert!(class_matches_byte(b'5', ByteClass::Word));
}

#[test]
fn run_searches() {
    assert_eq!(span(&find_digits("ab 123 c", 0), 0), Some((3, 6)));
    assert_eq!(span(&find_digits("ab 123 c", 4), 0), Some((4, 6)));
    assert!(find_digits("abc", 0).is_none());
    assert_eq!(span(&find_words("  foo_1 bar", 0), 0), Some((2, 7)));
    assert_eq!(span(&find_alpha_underscore("12 _ab3", 0), 0), Some((3, 6)));
    assert_eq!(span(&find_four_digits("12 123456", 0), 0), Some((3, 7)));
    assert!(find_four_digits("123 45", 0).is_none());
    assert_eq!(span(&find_words_min2("a b cd", 0), 0), Some((4, 6)));
    assert_eq!(span(&find_ascii_case_error("an ErRoR here", 0), 0), Some((3, 8)));
    assert!(find_ascii_case_error("erro", 0).is_none());
}

#[test]
fn run_counts() {
    assert_eq!(count_digits_bytes(b"1 22 333 x", 0), 3);
    assert_eq!(count_words_bytes(b"ab, c_d; e", 0), 3);
    assert_eq!(count_alpha_underscore_bytes(b"a1b _", 0), 3);
    assert_eq!(count_four_digits_bytes(b"2024 12345678 123", 0), 3);
    assert_eq!(count_words_min2_bytes(b"a bb c ddd", 0), 2);
    assert_eq!(count_ascii_case_error_bytes(b"error ERROR errorerror", 0), 4);
    assert_eq!(count_ascii_case_error_bytes(b"error", 1), 0);
    assert!(eq_ascii_case_error_at(b"xERRor", 1));
    assert!(!eq_ascii_case_error_at(b"xERRar", 1));
}

#[test]
fn a_plus_b_searches() {
    assert_eq!(span(&find_a_plus_b("xxaab b", 0), 0), Some((2, 5)));
    assert!(find_a_plus_b("aa ba", 0).is_none());
    assert!(has_a_plus_b("xxaab", 0));
    assert!(!has_a_plus_b("xxaab", 5));
    assert!(!has_a_plus_b("b ba", 0));
    assert_eq!(count_a_plus_b_bytes(b"ab aab b ab", 0), 3);
    assert_eq!(count_a_plus_b_bytes(b"ab aab b ab", 1), 3);
    assert_eq!(count_a_plus_b_bytes(b"ab aab b ab", 2), 2);
}

#[test]
fn word_eq_digits_searches() {
    let found = find_word_eq_digits("x key=42 y", 0);
    assert_eq!(span(&found, 0), Some((2, 8)));
    assert_eq!(span(&found, 1), Some((2, 5)));
    assert_eq!(span(&found, 2), Some((6, 8)));
    assert!(find_word_eq_digits("key= 42 =1", 0).is_none());
    assert!(has_word_eq_digits("a=1", 0));
    assert!(!has_word_eq_digits("a= 1", 0));
    assert!(is_word_eq_digit_at(b"a=1", 1));
    assert!(!is_word_eq_digit_at(b"a=x", 1));
    assert_eq!(count_word_eq_digits_bytes(b"a=1 b=22 =3 c=", 0), 2);
}

#[test]
fn class_runs_with_carried_state() {
    assert_eq!(count_class_runs_scalar(b"ab1 22x", 0, ByteClass::Digit, false), 2);
    assert_eq!(count_class_runs_scalar(b"1 22", 0, ByteClass::Digit, true), 1);
    assert_eq!(count_min_class_runs_scalar(b"1 22 333", 0, 2, ByteClass::Digit, false), 2);
    assert_eq!(count_min_class_runs_scalar(b"1 22 333", 3, 2, ByteClass::Digit, true), 1);
    assert_eq!(count_min_class_runs_scalar(b"1 22 333", 9, 2, ByteClass::Digit, false), 0);
    assert_eq!(count_fixed_class_runs_scalar(b"12345 678", 0, 2, ByteClass::Digit, 0), 3);
    assert_eq!(count_fixed_class_runs_scalar(b"12345 678", 0, 2, ByteClass::Digit, 1), 4);
}

#[test]
fn mask_run_counts() {
    assert_eq!(count_mask_run_starts(0b0110_0111, 8, false), 2);
    assert_eq!(count_mask_run_starts(0b0110_0111, 8, true), 1);
    assert_eq!(count_mask_run_starts(0b0110_0111, 4, false), 1);
    assert_eq!(count_mask_run_starts(u32::MAX, 32, false), 1);
    assert_eq!(count_mask_run_starts(0b1, 0, false), 0);
    assert_eq!(count_mask_min2_run_starts(0b0101_0110, 8, false, false), 1);
    assert_eq!(count_mask_min2_run_starts(0b0100_0110, 7, false, true), 2);
    assert_eq!(count_mask_min2_run_starts(0b0000_0011, 8, true, false), 0);
}

#[test]
fn fixed_mask_runs() {
    let mut run = 1;
    assert_eq!(add_fixed_mask_runs(0b1111, 4, 2, &mut run), 0);
    assert_eq!(run, 5);
    let mut run = 5;
    assert_eq!(add_fixed_mask_runs(0, 4, 2, &mut run), 2);
    assert_eq!(run, 0);
    let mut run = 1;
    assert_eq!(add_fixed_mask_runs(0b1011_0111, 8, 2, &mut run), 3);
    assert_eq!(run, 1);
    let mut run = 3;
    assert_eq!(add_fixed_mask_runs(0xFFFF_FFFF, 32, 4, &mut run), 0);
    assert_eq!(run, 35);
}

#[test]
fn dedicated_searches() {
    assert_eq!(classify("a+b"), Fast::APlusB);
    assert_eq!(classify(r"(\w+)=(\d+)"), Fast::WordEqDigits);
    assert_eq!(classify("a+"), Fast::Engine);
    assert_eq!(classify("a+bc"), Fast::Engine);
    assert_eq!(span(&find(Fast::APlusB, "caab", 0), 0), Some((1, 4)));
    assert!(find(Fast::Engine, "caab", 0).is_none());
    assert_eq!(span(&find(Fast::WordEqDigits, "k=1", 0), 2), Some((2, 3)));
    assert_eq!(is_match(Fast::APlusB, "b", 0), Some(false));
    assert_eq!(is_match(Fast::WordEqDigits, "n=1", 0), Some(true));
    assert_eq!(is_match(Fast::Engine, "ab", 0), None);
    assert_eq!(count(Fast::APlusB, "ab ab", 0), Some(2));
    assert_eq!(count(Fast::WordEqDigits, "a=1 b=2 c=", 0), Some(2));
    assert_eq!(count(Fast::Engine, "ab", 0), None);
    assert_eq!(count(Fast::WordEqDigits, "a=1=2", 0), Some(1));
    assert_eq!(find(Fast::APlusB, "ab", 0).unwrap().len(), 1);
    assert_eq!(find(Fast::WordEqDigits, "k=1", 0).unwrap().len(), 3);
}

#[test]
fn block_counts_agree_with_byte_counts() {
    let hay: &[u8] =
        b"12 abc_9 4567 x yy 1234567890123456789012345678901234 z9 __ a1 22 333 4444 55555 end";
    assert!(hay.len() > 64);
    assert_eq!(count_digits(hay, 0), count_digits_bytes(hay, 0));
    assert_eq!(count_digits(hay, 0), 10);
    assert_eq!(count_words(hay, 0), count_words_bytes(hay, 0));
    assert_eq!(count_alpha_underscore(hay, 0), count_alpha_underscore_bytes(hay, 0));
    assert_eq!(count_four_digits(hay, 0), count_four_digits_bytes(hay, 0));
    assert_eq!(count_words_min2(hay, 0), count_words_min2_bytes(hay, 0));
    assert_eq!(count_digits(hay, 5), count_digits_bytes(hay, 5));
    assert_eq!(count_words_min2(hay, 3), count_words_min2_bytes(hay, 3));
    assert_eq!(count_four_digits(hay, 20), count_four_digits_bytes(hay, 20));
    assert_eq!(count_digits(hay, hay.len()), 0);
    let block: &[u8] = b"a1_ 9Z..........................x";
    let mask = class_mask(block, 0, ByteClass::Word);
    assert_eq!(mask & 0x3f, 0b110111);
    assert_eq!(mask >> 31, 0);
    assert_eq!(class_mask(block, 1, ByteClass::Word) >> 31, 1);
}

#[test]
fn block_match_counts_agree_with_byte_counts() {
    let hay: &[u8] = b"ab aab b xab k=1 v=22 =3 w= ab...............................ab x=9 aaab";
    assert!(hay.len() > 64);
    for start in [0, 1, 5, 33, hay.len()] {
        assert_eq!(
            regex::regex::arch::blocks::count_a_plus_b_blocks(hay, start),
            count_a_plus_b_bytes(hay, start)
        );
        assert_eq!(
            regex::regex::arch::blocks::count_word_eq_digits_blocks(hay, start),
            count_word_eq_digits_bytes(hay, start)
        );
    }
    assert_eq!(regex::regex::arch::blocks::count_a_plus_b_blocks(hay, 0), 6);
    assert_eq!(regex::regex::arch::blocks::count_word_eq_digits_blocks(hay, 0), 3);
}

#[test]
fn block_error_count_agrees_with_scalar() {
    let mut hay: Vec<u8> = Vec::new();
    for k in 0..40 {
        hay.extend_from_slice(if k % 3 == 0 { b"ErRoR " } else { b"eerror" });
    }
    for start in [0usize, 1, 5, 31, 32, 33, 100, hay.len(), hay.len() + 3] {
        assert_eq!(count_ascii_case_error(&hay, start), count_ascii_case_error_bytes(&hay, start));
    }
    let exact = b"xxxxxxxxxxxxxxxxxxxxxxxxxxxxxxerror error";
    assert_eq!(count_ascii_case_error(exact, 0), 2);
    assert_eq!(count_ascii_case_error(b"errorERROR", 0), 2);
    assert_eq!(count_ascii_case_error(b"erro", 0), 0);
}
