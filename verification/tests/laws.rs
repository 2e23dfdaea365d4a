use regex::bytes;
use regex::{Regex, RegexBuilder, RegexSet};

fn spans(re: &Regex, hay: &str) -> Vec<(usize, usize)> {
    let mut it = re.find_iter(hay);
    let mut out = Vec::new();
    while let Some(m) = it.next() {
        out.push((m.start(), m.end()));
    }
    out
}

fn byte_spans(re: &bytes::Regex, hay: &[u8]) -> Vec<(usize, usize)> {
    let mut it = re.find_iter(hay);
    let mut out = Vec::new();
    while let Some(m) = it.next() {
        out.push((m.start(), m.end()));
    }
    out
}

fn split_parts<'h>(re: &Regex, hay: &'h str) -> Vec<&'h str> {
    let mut it = re.split(hay);
    let mut out = Vec::new();
    while let Some(p) = it.next() {
        out.push(p);
    }
    out
}

fn byte_split_parts<'h>(re: &bytes::Regex, hay: &'h [u8]) -> Vec<&'h [u8]> {
    let mut it = re.split(hay);
    let mut out = Vec::new();
    while let Some(p) = it.next() {
        out.push(p);
    }
    out
}

#[test]
fn matches_come_in_order_without_overlap() {
    let re = Regex::new(r"\d+").unwrap();
    let hay = "a1b22c333";
    let ms = spans(&re, hay);
    assert_eq!(ms, vec![(1, 2), (3, 5), (6, 9)]);
    for w in ms.windows(2) {
        assert!(w[0].0 <= w[0].1 && w[0].1 <= w[1].0);
    }
    let re = Regex::new(r"a*").unwrap();
    assert_eq!(spans(&re, "baab"), vec![(0, 0), (1, 3), (4, 4)]);
    let re = Regex::new(r"").unwrap();
    assert_eq!(spans(&re, "é"), vec![(0, 0), (2, 2)]);
}

#[test]
fn no_empty_match_where_a_match_ended() {
    let re = Regex::new(r"a*").unwrap();
    assert_eq!(spans(&re, "ab"), vec![(0, 1), (2, 2)]);
    assert_eq!(spans(&re, "a"), vec![(0, 1)]);
    assert_eq!(re.find_iter("ab").count(), 2);
    let caps: Vec<(usize, usize)> = {
        let mut it = re.captures_iter("ab");
        let mut out = Vec::new();
        while let Some(c) = it.next() {
            let m = c.get(0).unwrap();
            out.push((m.start(), m.end()));
        }
        out
    };
    assert_eq!(caps, vec![(0, 1), (2, 2)]);
    assert_eq!(split_parts(&re, "ab"), vec!["", "b", ""]);
    assert_eq!(re.replace_all("ab", "-"), "-b-");
    let ms = spans(&re, "baaba");
    for w in ms.windows(2) {
        assert!(w[0].0 < w[1].0);
        if w[1].0 == w[1].1 {
            assert!(w[0].1 < w[1].0);
        }
    }
    let bre = bytes::Regex::new(r"a*").unwrap();
    assert_eq!(byte_spans(&bre, b"ab"), vec![(0, 1), (2, 2)]);
    assert_eq!(byte_spans(&bre, b"baab"), vec![(0, 0), (1, 3), (4, 4)]);
}

#[test]
fn repetition_of_empty_matching_pattern() {
    assert!(Regex::new("(?:a*)+b").unwrap().is_match("b"));
    assert!(Regex::new("(a*){2}b").unwrap().is_match("b"));
    let re = Regex::new("(?:a*)+b").unwrap();
    let m = re.find("xb").unwrap();
    assert_eq!((m.start(), m.end()), (1, 2));
    let c = Regex::new("(a*)+b").unwrap().captures("b").unwrap();
    assert_eq!(c.get(1).map(|g| (g.start(), g.end())), Some((0, 0)));
    assert!(bytes::Regex::new("(?:a*)+b").unwrap().is_match(b"b"));
}

#[test]
fn first_iterated_match_is_find() {
    let re = Regex::new(r"[a-z]+\d").unwrap();
    let hay = "12 ab3 cd4";
    let m = re.find(hay).unwrap();
    assert_eq!(spans(&re, hay)[0], (m.start(), m.end()));
    assert!(spans(&re, "none here").is_empty());
    assert!(re.find("none here").is_none());
    assert!(!re.is_match("none here"));
}

#[test]
fn count_is_number_of_matches() {
    let re = Regex::new(r"\w+").unwrap();
    let hay = "one two  three";
    assert_eq!(re.find_iter(hay).count(), spans(&re, hay).len());
    assert_eq!(re.find_iter(hay).count(), 3);
    assert_eq!(re.captures_iter(hay).count(), 3);
    let re = Regex::new(r"x*").unwrap();
    assert_eq!(re.find_iter("ab").count(), 3);
}

#[test]
fn split_parts_and_matches_rebuild_haystack() {
    let re = Regex::new(r"[,;]\s*").unwrap();
    let hay = "a, b;c,,d";
    let parts = split_parts(&re, hay);
    let ms = spans(&re, hay);
    assert_eq!(parts, vec!["a", "b", "c", "", "d"]);
    assert_eq!(parts.len(), ms.len() + 1);
    let mut rebuilt = String::new();
    for (k, p) in parts.iter().enumerate() {
        rebuilt.push_str(p);
        if k < ms.len() {
            rebuilt.push_str(&hay[ms[k].0..ms[k].1]);
        }
    }
    assert_eq!(rebuilt, hay);
    assert_eq!(split_parts(&re, ""), vec![""]);
}

#[test]
fn replace_all_without_match_keeps_haystack() {
    let re = Regex::new(r"\d").unwrap();
    assert_eq!(re.replace_all("no digits", "#"), "no digits");
    assert_eq!(re.replace("no digits", "#"), "no digits");
    assert_eq!(re.replace_all("a1b2", "#"), "a#b#");
    assert_eq!(re.replace("a1b2", "#"), "a#b2");
}

#[test]
fn captures_group_zero_is_find() {
    let re = Regex::new(r"(?P<k>\w+)=(?P<v>\d+)").unwrap();
    let hay = "x: key=42;";
    let c = re.captures(hay).unwrap();
    let m = re.find(hay).unwrap();
    let g0 = c.get(0).unwrap();
    assert_eq!((g0.start(), g0.end()), (m.start(), m.end()));
    assert_eq!(&c[0], "key=42");
    assert_eq!(&c["k"], "key");
    assert_eq!(c.name("v").unwrap().as_str(), "42");
    assert!(c.name("nope").is_none());
    assert_eq!(c.len(), 3);
    assert_eq!(re.captures_len(), 3);
}

#[test]
fn set_is_match_agrees_with_matched_any() {
    let set = RegexSet::new(&[r"^\d+$", r"[a-z]{3}", r"!"]).unwrap();
    for hay in ["123", "abc", "ab", "!", "??"] {
        assert_eq!(set.is_match(hay), set.matches(hay).matched_any());
        for i in 0..set.len() {
            let re = Regex::new(&set.patterns()[i]).unwrap();
            assert_eq!(set.matches(hay).matched(i), re.is_match(hay));
        }
    }
}

#[test]
fn regex_keeps_its_pattern() {
    let re = Regex::new(r"a(b|c)*d").unwrap();
    assert_eq!(re.as_str(), r"a(b|c)*d");
    let built = RegexBuilder::new(r"a(b|c)*d").build().unwrap();
    assert_eq!(built.as_str(), re.as_str());
    assert_eq!(built.captures_len(), re.captures_len());
    assert_eq!(re.capture_names().count(), re.captures_len());
}

#[test]
fn bytes_laws_on_examples() {
    let re = bytes::Regex::new(r"\d+").unwrap();
    let hay: &[u8] = b"a1b22\xffc333";
    let ms = byte_spans(&re, hay);
    assert_eq!(ms, vec![(1, 2), (3, 5), (7, 10)]);
    assert_eq!(re.find_iter(hay).count(), 3);
    let m = re.find(hay).unwrap();
    assert_eq!(ms[0], (m.start(), m.end()));
    let parts = byte_split_parts(&re, hay);
    let mut rebuilt: Vec<u8> = Vec::new();
    for (k, p) in parts.iter().enumerate() {
        rebuilt.extend_from_slice(p);
        if k < ms.len() {
            rebuilt.extend_from_slice(&hay[ms[k].0..ms[k].1]);
        }
    }
    assert_eq!(rebuilt, hay.to_vec());
    assert_eq!(re.replace_all(b"none", b"#".as_slice()), b"none".to_vec());
    let set = bytes::RegexSet::new(&[r"\d", r"z"]).unwrap();
    assert_eq!(set.is_match(hay), set.matches(hay).matched_any());
    assert!(!set.matches(hay).matched(1));
}

#[test]
fn literal_prefix_search_skips_ahead() {
    let re = bytes::Regex::new(r"x\d").unwrap();
    let mut hay = vec![b'.'; 1000];
    hay.extend_from_slice(b"xx7");
    let m = re.find(&hay).unwrap();
    assert_eq!((m.start(), m.end()), (1001, 1003));
    let re = Regex::new(r"é\d").unwrap();
    let m = re.find("aé é5").unwrap();
    assert_eq!((m.start(), m.end()), (4, 7));
}

#[test]
fn escapes_and_unicode_classes() {
    let re = Regex::new(r"\x{e9}\x41").unwrap();
    assert!(re.is_match("éA"));
    let re = Regex::new(r"\p{L}+").unwrap();
    assert_eq!(re.find("12 héllo!").unwrap().as_str(), "héllo");
    let re = Regex::new(r"\p{Lu}").unwrap();
    assert_eq!(re.find("abcÉ").unwrap().as_str(), "É");
    let re = Regex::new(r"\s+").unwrap();
    assert_eq!(re.replace_all("a \u{2003} b", "_"), "a_b");
}

#[test]
fn replacement_templates() {
    let re = Regex::new(r"(?P<w>\w+)@(\d)").unwrap();
    assert_eq!(re.replace("a@1", "$2-${w}"), "1-a");
    assert_eq!(re.replace("a@1", "${2}x"), "1x");
    assert_eq!(re.replace("a@1", "$$"), "$");
    assert_eq!(re.replace("a@1", "[$9]"), "[]");
    assert_eq!(re.replace("a@1", "$"), "$");
    let owned = String::from("<$0>");
    assert_eq!(re.replace_all("a@1 b@2", owned), "<a@1> <b@2>");
    assert_eq!(re.replace_all("a@1 b@2", |c: &regex::Captures<'_>| c[1].to_uppercase()), "A B");
}

#[test]
fn compile_errors_have_messages() {
    let e = Regex::new("(").unwrap_err();
    assert!(!e.to_string().is_empty());
    let e = RegexBuilder::new("a{2}").size_limit(1).build().unwrap_err();
    assert_eq!(e.to_string(), "compiled regex exceeds size limit");
    let e = RegexSet::new(&["a", "b(", "c["]).unwrap_err();
    assert_eq!(e, Regex::new("b(").unwrap_err());
}

#[test]
fn dedicated_searches_in_regex() {
    let re = Regex::new("a+b").unwrap();
    let c = re.captures("xaab").unwrap();
    assert_eq!(c.len(), 1);
    assert_eq!(&c[0], "aab");
    assert!(c.get(1).is_none());
    assert_eq!(re.find_iter("ab aab b").count(), 2);
    assert!(re.is_match("caab"));
    assert!(!re.is_match("ba"));

    let re = Regex::new(r"(\w+)=(\d+)").unwrap();
    let c = re.captures("x key=42").unwrap();
    assert_eq!((&c[1], &c[2]), ("key", "42"));
    assert_eq!(re.find_iter("a=1 b=2 c=").count(), 2);
    assert!(!re.is_match("é=1"));
    assert!(re.find("é=1").is_none());
    assert_eq!(re.find("é=1 x=2").unwrap().as_str(), "x=2");

    assert_eq!(re.find_iter("a=1=2").count(), 1);
    assert_eq!(spans(&re, "a=1=2"), vec![(0, 3)]);

    let built = RegexBuilder::new(r"(\w+)=(\d+)").build().unwrap();
    assert!(built.is_match("k=1"));
    assert_eq!(built.captures("k=1").unwrap().len(), 3);
    assert_eq!(RegexBuilder::new("a+b").build().unwrap().captures("ab").unwrap().len(), 1);
}

#[test]
fn copies_search_alike() {
    let re = Regex::new(r"(?P<k>\w+)=(\d+)").unwrap();
    let copy = re.clone();
    assert_eq!(copy.as_str(), re.as_str());
    assert_eq!(spans(&copy, "a=1 b=22"), spans(&re, "a=1 b=22"));
    let c = re.captures("x=5").unwrap();
    let c2 = c.clone();
    assert_eq!((&c2[0], &c2["k"], &c2[2]), ("x=5", "x", "5"));
    let set = RegexSet::new(&[r"\d", r"[a-z]"]).unwrap();
    let set2 = set.clone();
    assert_eq!(set2.patterns(), set.patterns());
    assert!(set2.matches("7").matched(0));
    let b = RegexBuilder::new("a").case_insensitive(true).clone();
    assert!(b.build().unwrap().is_match("A"));
    let bre = bytes::Regex::new(r"\d+").unwrap().clone();
    assert_eq!(byte_spans(&bre, b"a12"), vec![(1, 3)]);
}

#[test]
fn unicode_properties() {
    let re = Regex::new(r"\p{N}+").unwrap();
    assert_eq!(re.find("ab٣4½c").unwrap().as_str(), "٣4½");
    let re = Regex::new(r"\p{Ll}+").unwrap();
    assert_eq!(re.find("ABéfG").unwrap().as_str(), "éf");
    let re = Regex::new(r"\p{Alnum}+").unwrap();
    assert_eq!(re.find("--é9x!").unwrap().as_str(), "é9x");
    let re = Regex::new(r"\P{L}+").unwrap();
    assert_eq!(re.find("ab12c").unwrap().as_str(), "12");
}

#[test]
fn search_takes_leftmost_start() {
    let re = Regex::new("b|ab").unwrap();
    let m = re.find("xabb").unwrap();
    assert_eq!((m.start(), m.end()), (1, 3));
    let bre = bytes::Regex::new("b|ab").unwrap();
    let m = bre.find(b"\xffab").unwrap();
    assert_eq!((m.start(), m.end()), (1, 3));
}

#[test]
fn groups_lie_within_whole_match() {
    let re = Regex::new(r"(a+)(b)?(c)").unwrap();
    let c = re.captures("xxaac").unwrap();
    let whole = c.get(0).unwrap();
    assert_eq!((whole.start(), whole.end()), (2, 5));
    for i in 1..c.len() {
        if let Some(g) = c.get(i) {
            assert!(whole.start() <= g.start() && g.end() <= whole.end());
        }
    }
    assert!(c.get(2).is_none());
}

#[test]
fn split_has_one_more_part_than_matches() {
    let re = Regex::new(r"\d").unwrap();
    let hay = "a1b2c";
    let ms = spans(&re, hay);
    let parts = split_parts(&re, hay);
    assert_eq!(ms.len(), 2);
    assert_eq!(parts, vec!["a", "b", "c"]);
    assert_eq!(parts.len(), ms.len() + 1);
    assert_eq!(split_parts(&re, "12"), vec!["", "", ""]);
}

#[test]
fn set_error_is_first_failing_pattern() {
    let e = RegexSet::new(&["ok", "(", "["]).unwrap_err();
    assert_eq!(e, Regex::new("(").unwrap_err());
    assert!(RegexSet::new(&["a", "b"]).is_ok());
    let set = RegexSet::new(&["a", "x", "b"]).unwrap();
    let got: Vec<usize> = set.matches("ab").into_iter().collect();
    assert_eq!(got, vec![0, 2]);
}

#[test]
fn dedicated_count_is_number_of_matches() {
    let re = Regex::new(r"(\w+)=(\d+)").unwrap();
    for hay in ["a=1=2", "k=1 v=22 =3 w=", "x=1=2=3 y=4"] {
        assert_eq!(re.find_iter(hay).count(), spans(&re, hay).len());
    }
    let re = Regex::new("a+b").unwrap();
    for hay in ["aab ab b", "abab", "baab"] {
        assert_eq!(re.find_iter(hay).count(), spans(&re, hay).len());
    }
}

#[test]
fn matching_from_any_position_with_any_slots() {
    let s = b"ab";
    let empty = regex::ast::Ast::Empty;
    let got = regex::matcher::matches(&empty, s, 5, vec![Some((9, 1))]);
    assert_eq!(got, vec![(5, vec![Some((9, 1))])]);
    let lit = regex::ast::Ast::Literal('a');
    assert!(regex::matcher::matches(&lit, s, 5, vec![None]).is_empty());
    let rep = regex::ast::Ast::Repeat {
        node: Box::new(regex::ast::Ast::Repeat {
            node: Box::new(regex::ast::Ast::Literal('a')),
            min: 0,
            max: None,
            greedy: true,
        }),
        min: 1,
        max: None,
        greedy: true,
    };
    let got = regex::matcher::matches(&rep, b"b", 0, vec![None]);
    assert!(got.iter().any(|r| r.0 == 0));
    let group = regex::ast::Ast::Group { index: 1, node: Box::new(regex::ast::Ast::Literal('a')) };
    let got = regex::matcher::matches(&group, s, 0, vec![Some((7, 3)), None]);
    assert_eq!(got, vec![(1, vec![Some((7, 3)), Some((0, 1))])]);
}

#[test]
fn greed_never_decides_whether_there_is_a_match() {
    for pat in [r"\A(?:a?)*\z", r"\A(?:a??)*\z", r"\A(?:a??)*?\z", r"(?U)\A(?:a?)*\z", r"\A(a|b?)+\z"] {
        let re = Regex::new(pat).unwrap();
        assert!(re.is_match("a"), "{pat}");
        assert!(re.is_match("ab") == pat.contains("b?"), "{pat}");
    }
    let lazy = RegexBuilder::new(r"\A(?:a?)*\z").swap_greed(true).build().unwrap();
    assert!(lazy.is_match("aa"));
    let greedy = Regex::new(r"a+").unwrap();
    let swapped = RegexBuilder::new(r"a+").swap_greed(true).build().unwrap();
    let m = greedy.find("baa").unwrap();
    assert_eq!((m.start(), m.end()), (1, 3));
    let m = swapped.find("baa").unwrap();
    assert_eq!((m.start(), m.end()), (1, 2));
    assert!(!swapped.is_match("bbb") && !greedy.is_match("bbb"));
}

#[test]
fn search_from_inside_a_character() {
    let hay = "é";
    let empty = regex::ast::Ast::Empty;
    assert_eq!(regex::matcher::find(&empty, hay, 0, 1, None), Some(vec![Some((1, 1))]));
    let lit = regex::ast::Ast::Literal('a');
    assert_eq!(regex::matcher::find(&lit, "éa", 0, 1, Some('a')), None);
    assert_eq!(regex::matcher::find(&lit, "éa", 0, 0, Some('a')), Some(vec![Some((2, 3))]));
    assert_eq!(regex::matcher::find(&lit, "éa", 0, 9, None), None);
}

#[test]
fn case_insensitive_is_a_leading_flag() {
    let pats = ["abc", "x|Y", "[a-c]+d", "(é)+", "(?-i)Q"];
    let prefixed: Vec<String> = pats.iter().map(|p| format!("(?i){}", p)).collect();
    let prefixed_refs: Vec<&str> = prefixed.iter().map(|p| p.as_str()).collect();
    let mut builder = regex::RegexSetBuilder::new(&pats);
    builder.case_insensitive(true);
    let built = builder.build().unwrap();
    let flagged = RegexSet::new(&prefixed_refs).unwrap();
    for hay in ["ABC", "y", "CAD", "É", "q", "Q", "zzz"] {
        let a: Vec<usize> = built.matches(hay).into_iter().collect();
        let b: Vec<usize> = flagged.matches(hay).into_iter().collect();
        assert_eq!(a, b, "{hay}");
    }
    for (p, q) in pats.iter().zip(prefixed_refs.iter()) {
        let r1 = RegexBuilder::new(p).case_insensitive(true).build().unwrap();
        let r2 = Regex::new(q).unwrap();
        let c1 = r1.captures("xxABCD");
        let c2 = r2.captures("xxABCD");
        assert_eq!(c1.map(|c| c.len()), c2.map(|c| c.len()));
        assert_eq!(r1.find("xxABCD").map(|m| (m.start(), m.end())), r2.find("xxABCD").map(|m| (m.start(), m.end())));
    }
    assert!(RegexSet::new(&["(?i)abc"]).unwrap().is_match("ABC"));
}

#[test]
fn swapped_greed_sets_match_alike() {
    let pats = [r"a+", r"\A(?:a?)*\z", r"(x|xy)+z", r"b{2,}?"];
    let mut lazy = regex::RegexSetBuilder::new(&pats);
    lazy.swap_greed(true);
    let lazy = lazy.build().unwrap();
    let greedy = regex::RegexSetBuilder::new(&pats).build().unwrap();
    for hay in ["", "a", "aa", "xyxz", "bbb", "c"] {
        let a: Vec<usize> = lazy.matches(hay).into_iter().collect();
        let b: Vec<usize> = greedy.matches(hay).into_iter().collect();
        assert_eq!(a, b, "{hay}");
    }
}
