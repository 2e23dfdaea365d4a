use regex::bytes::{Regex, RegexBuilder, RegexSet, RegexSetBuilder, SetMatchesIter, Split};

fn parts<'h>(mut it: Split<'_, 'h>) -> Vec<&'h [u8]> {
    let mut out = Vec::new();
    while let Some(p) = it.next() {
        out.push(p);
    }
    out
}

fn indexes(mut it: SetMatchesIter<'_>) -> Vec<usize> {
    let mut out = Vec::new();
    while let Some(i) = it.next() {
        out.push(i);
    }
    out
}

/// Checks `is_match`, `find` and the spans `find_iter` yields against the
/// results the `regex` crate gives for the same pattern and haystack.
fn assert_results(
    pattern: &str,
    haystack: &[u8],
    matched: bool,
    first: Option<(usize, usize)>,
    all: Vec<(usize, usize)>,
) {
    let re = Regex::new(pattern).unwrap();
    assert_eq!(re.is_match(haystack), matched, "is_match {pattern}");
    assert_eq!(re.find(haystack).map(|m| (m.start(), m.end())), first, "find {pattern}");
    let mut it = re.find_iter(haystack);
    let mut spans = Vec::new();
    while let Some(m) = it.next() {
        spans.push((m.start(), m.end()));
    }
    assert_eq!(spans, all, "find_iter {pattern}");
}

#[test]
fn bytes_match_invalid_utf8_like_regex_crate() {
    let haystack = b"a\xff12 b\x80\xff345";
    assert_results(r"\d+", haystack, true, Some((2, 4)), vec![(2, 4), (8, 11)]);
    let words = vec![(0, 1), (2, 4), (5, 6), (8, 11)];
    assert_results(r"\w+", haystack, true, Some((0, 1)), words.clone());
    assert_results(
        r".",
        haystack,
        true,
        Some((0, 1)),
        vec![(0, 1), (2, 3), (3, 4), (4, 5), (5, 6), (8, 9), (9, 10), (10, 11)],
    );
    assert_results(r"[^0-9]+", haystack, true, Some((0, 1)), vec![(0, 1), (4, 6)]);
    assert_results(r"\b\w+\b", haystack, true, Some((0, 1)), words);
}

#[test]
fn bytes_captures_match_regex_crate() {
    let haystack = b"\xff x=12 y=345";
    let re = Regex::new(r"(\w+)=(\d+)").unwrap();
    let caps = re.captures(haystack).unwrap();
    let expected = [Some((2, 6)), Some((2, 3)), Some((4, 6))];
    assert_eq!(caps.len(), expected.len());
    for i in 0..caps.len() {
        assert_eq!(caps.get(i).map(|m| (m.start(), m.end())), expected[i]);
    }
    assert_eq!(caps.get(0).unwrap().as_bytes(), b"x=12");
    assert_eq!(&caps[1], b"x");
    assert_eq!(&caps[2], b"12");
}

#[test]
fn bytes_fast_patterns_match_regex_crate() {
    let haystack = b"a12 b_3 ERROR aaab aab 123456789";
    let words = vec![(0, 3), (4, 7), (8, 13), (14, 18), (19, 22), (23, 32)];
    let a_runs = vec![(14, 18), (19, 22)];
    assert_results(r"\d+", haystack, true, Some((1, 3)), vec![(1, 3), (6, 7), (23, 32)]);
    assert_results(r"\w+", haystack, true, Some((0, 3)), words.clone());
    assert_results(
        r"[a-zA-Z_]+",
        haystack,
        true,
        Some((0, 1)),
        vec![(0, 1), (4, 6), (8, 13), (14, 18), (19, 22)],
    );
    assert_results(r"\d{4}", haystack, true, Some((23, 27)), vec![(23, 27), (27, 31)]);
    assert_results(r"\w{2,}", haystack, true, Some((0, 3)), words);
    assert_results(r"(?i)error", haystack, true, Some((8, 13)), vec![(8, 13)]);
    assert_results(r"a+b", haystack, true, Some((14, 18)), a_runs.clone());
    assert_results(r"(a|aa)+b", haystack, true, Some((14, 18)), a_runs.clone());
    assert_results(r"(a+)+b", haystack, true, Some((14, 18)), a_runs);
}

#[test]
fn bytes_split_and_replace() {
    let re = Regex::new(r",\s*").unwrap();
    let parts = parts(re.split(b"a, b,c\xff"));
    assert_eq!(parts, vec![&b"a"[..], &b"b"[..], &b"c\xff"[..]]);

    let re = Regex::new(r"(\w+)=(\d+)").unwrap();
    assert_eq!(re.replace(b"x=12 y=3", b"$2:$1").as_slice(), b"12:x y=3");
    assert_eq!(re.replace_all(b"x=12 y=3", b"$2:$1").as_slice(), b"12:x 3:y");
    assert_eq!(
        re.replace_all(b"x=12", |caps: &regex::bytes::Captures<'_>| {
            caps[2].to_vec()
        })
        .as_slice(),
        b"12"
    );
}

#[test]
fn bytes_extended_syntax() {
    let re = Regex::new(r"(?:cat|dog)s?").unwrap();
    assert_eq!(re.captures_len(), 1);
    assert!(re.is_match(b"dogs"));

    assert!(Regex::new(r"a(?i:b)c").unwrap().is_match(b"aBc"));
    assert!(Regex::new(r"(?m)^bar$").unwrap().is_match(b"foo\nbar\nbaz"));
    assert!(Regex::new(r"(?s)a.c").unwrap().is_match(b"a\nc"));
    assert!(Regex::new(r"\Aabc\z").unwrap().is_match(b"abc"));
    assert!(Regex::new(r"\x41\u0042\u{43}").unwrap().is_match(b"ABC"));
    assert!(Regex::new(r"ab{,3}c").unwrap().is_match(b"abbbc"));
}

#[test]
fn bytes_builder_extra_options_are_enforced() {
    let re = RegexBuilder::new(r"(?m)^bar$").crlf(true).build().unwrap();
    assert!(re.is_match(b"foo\r\nbar\r\nbaz"));

    assert!(RegexBuilder::new(r"\141").build().is_err());
    assert!(
        RegexBuilder::new(r"\141")
            .octal(true)
            .build()
            .unwrap()
            .is_match(b"a")
    );
    assert!(RegexBuilder::new(r"\u{61}").unicode(false).build().is_err());
    assert!(RegexBuilder::new(r"(a)").nest_limit(0).build().is_err());
    assert!(RegexBuilder::new(r"abcdef").size_limit(2).build().is_err());
}

#[test]
fn bytes_named_captures_and_replacements() {
    let re = Regex::new(r"(?P<key>\w+)=(?<value>\d+)").unwrap();
    let caps = re.captures(b"count=42").unwrap();

    assert_eq!(
        re.capture_names().collect::<Vec<_>>(),
        [None, Some("key"), Some("value")]
    );
    assert_eq!(caps.name("key").unwrap().as_bytes(), b"count");
    assert_eq!(caps.name("value").unwrap().as_bytes(), b"42");
    assert_eq!(&caps["key"], b"count");
    assert_eq!(
        re.replace(b"count=42", b"${value}:${key}").as_slice(),
        b"42:count"
    );
}

#[test]
fn bytes_utf8_pattern_literals_match_encoded_bytes() {
    let re = Regex::new("é+").unwrap();
    let m = re.find("xéé".as_bytes()).unwrap();
    assert_eq!(m.as_bytes(), "éé".as_bytes());
    assert_eq!(m.range(), 1..5);
}

#[test]
fn bytes_regex_set_reports_matching_pattern_indexes() {
    let set = RegexSet::new(&[r"\d+", r"\w+", r"^foo", r"bar$"]).unwrap();
    let matches = set.matches(b"foo 123");

    assert_eq!(set.len(), 4);
    assert_eq!(set.patterns(), &[r"\d+", r"\w+", r"^foo", r"bar$"]);
    assert!(set.is_match(b"foo 123"));
    assert!(!set.is_match(b"!!!"));
    assert!(matches.matched_any());
    assert!(matches.matched(0));
    assert!(matches.matched(1));
    assert!(matches.matched(2));
    assert!(!matches.matched(3));
    assert!(!matches.matched(99));
    assert_eq!(indexes(matches.iter()), vec![0, 1, 2]);
    assert_eq!(indexes((&matches).iter()), vec![0, 1, 2]);
    assert_eq!(matches.into_iter().collect::<Vec<_>>(), vec![0, 1, 2]);
}

#[test]
fn bytes_regex_set_builder_flags_apply_to_patterns() {
    let set = RegexSetBuilder::new(&[r"^bar$", r"a.c", r"a b"])
        .multi_line(true)
        .dot_matches_new_line(true)
        .ignore_whitespace(true)
        .build()
        .unwrap();

    assert!(set.matches(b"foo\nbar\nbaz").matched(0));
    assert!(set.matches(b"a\nc").matched(1));
    assert!(set.matches(b"ab").matched(2));
}

#[test]
fn bytes_regex_set_builder_extra_options_apply_to_patterns() {
    let set = RegexSetBuilder::new(&[r"(?m)^bar$", r"\141"])
        .crlf(true)
        .octal(true)
        .build()
        .unwrap();

    assert!(set.matches(b"foo\r\nbar\r\na").matched(0));
    assert!(set.matches(b"foo\r\nbar\r\na").matched(1));
    assert!(
        RegexSetBuilder::new(&[r"(a)"])
            .nest_limit(0)
            .build()
            .is_err()
    );
    assert!(
        RegexSetBuilder::new(&[r"abcdef"])
            .size_limit(2)
            .build()
            .is_err()
    );
}
