use regex::{Captures, Regex, RegexSet};

fn all_strs<'h>(re: &Regex, hay: &'h str) -> Vec<&'h str> {
    let mut it = re.find_iter(hay);
    let mut out = Vec::new();
    while let Some(m) = it.next() {
        out.push(m.as_str());
    }
    out
}

fn split_strs<'h>(re: &Regex, hay: &'h str) -> Vec<&'h str> {
    let mut it = re.split(hay);
    let mut out = Vec::new();
    while let Some(p) = it.next() {
        out.push(p);
    }
    out
}

#[test]
fn readme_usage() {
    let re = Regex::new(r"h.llo").unwrap();
    assert!(re.is_match("well hello there"));
    let m = re.find("well hello there").unwrap();
    assert_eq!((m.as_str(), m.start(), m.end()), ("hello", 5, 10));

    let re = Regex::new(r"(\w+)=(\d+)").unwrap();
    let caps = re.captures("name=42").unwrap();
    assert_eq!((&caps[0], &caps[1], &caps[2]), ("name=42", "name", "42"));

    let re = Regex::new(r"\d+").unwrap();
    assert_eq!(all_strs(&re, "1 22 333"), vec!["1", "22", "333"]);

    let re = Regex::new(r"\s+").unwrap();
    assert_eq!(re.replace_all("a  b   c", "-"), "a-b-c");
    let re = Regex::new(r",").unwrap();
    assert_eq!(split_strs(&re, "a,b,c"), vec!["a", "b", "c"]);

    let set = RegexSet::new(&[r"\d+", r"[a-z]+", r"\s+"]).unwrap();
    assert_eq!(set.matches("abc123").into_iter().collect::<Vec<_>>(), vec![0, 1]);

    let re = regex::bytes::Regex::new(r"\d+").unwrap();
    assert_eq!(re.find(b"id 42").unwrap().as_bytes(), b"42");
}

#[test]
fn documented_examples() {
    assert!(Regex::new(r"\d{4}-\d{2}-\d{2}").unwrap().is_match("today is 2024-01-15"));
    let caps = Regex::new(r"(\w+)=(\d+)").unwrap().captures("count=42 limit=100").unwrap();
    assert_eq!((&caps[1], &caps[2]), ("count", "42"));
    let re = Regex::new(r"(\w+)").unwrap();
    assert_eq!(re.replace("hello world", |c: &Captures<'_>| c[1].to_uppercase()), "HELLO world");
    let m = Regex::new(r"\d+").unwrap().find("foo 42 bar").unwrap();
    assert_eq!((m.as_str(), m.range()), ("42", 4..6));
    let caps = Regex::new(r"(\d{4})-(\d{2})-(\d{2})").unwrap().captures("date: 2024-01-15").unwrap();
    assert_eq!((&caps[1], &caps[2], &caps[3]), ("2024", "01", "15"));
    assert_eq!(
        all_strs(&Regex::new(r"\d+").unwrap(), "one 1 two 22 three 333"),
        vec!["1", "22", "333"]
    );
    assert_eq!(
        split_strs(&Regex::new(r"\s+").unwrap(), "one   two\tthree"),
        vec!["one", "two", "three"]
    );
    assert_eq!(Regex::new(r"(\w+)\s(\w+)").unwrap().replace("hello world", "$2 $1"), "world hello");
    assert!(Regex::new(r"[unclosed").is_err());
    assert_eq!(Regex::new(r"\d+").unwrap().as_str(), r"\d+");
    let re = Regex::new(r"\b\w{5}\b").unwrap();
    assert!(re.is_match("hello world"));
    assert!(!re.is_match("hi"));
    let m = Regex::new(r"\d+").unwrap().find("price: $42").unwrap();
    assert_eq!((m.as_str(), m.start()), ("42", 8));
    let caps = Regex::new(r"(\w+)@(\w+)\.(\w+)").unwrap().captures("user@example.com").unwrap();
    assert_eq!((&caps[1], &caps[2], &caps[3]), ("user", "example", "com"));
    let re = Regex::new(r"(\w+)=(\d+)").unwrap();
    let mut it = re.captures_iter("x=1 y=22 z=333");
    let mut pairs = Vec::new();
    while let Some(c) = it.next() {
        pairs.push((c[1].to_string(), c[2].to_string()));
    }
    assert_eq!(pairs.len(), 3);
    assert_eq!(pairs[2], ("z".to_string(), "333".to_string()));
    assert_eq!(
        split_strs(&Regex::new(r",\s*").unwrap(), "one, two,three"),
        vec!["one", "two", "three"]
    );
    let re = Regex::new(r"\d+").unwrap();
    assert_eq!(re.replace("foo 1 bar 2", "X"), "foo X bar 2");
    assert_eq!(re.replace_all("foo 1 bar 2 baz 3", "X"), "foo X bar X baz X");
    let caps = Regex::new(r"(\d+)").unwrap().captures("price: 99").unwrap();
    assert_eq!(caps.get(1).unwrap().as_str(), "99");
    assert!(caps.get(2).is_none());

    let set = RegexSet::new(&[r"\d+", r"\w+", r"^foo"]).unwrap();
    assert_eq!(set.matches("foo 123").into_iter().collect::<Vec<_>>(), vec![0, 1, 2]);
    let set = RegexSet::new(&[r"error", r"warning", r"critical"]).unwrap();
    assert!(set.is_match("critical failure"));
    assert!(!set.is_match("all clear"));
    let set = RegexSet::new(&[r"foo", r"bar", r"baz"]).unwrap();
    let matches = set.matches("bar and baz");
    assert!(!matches.matched(0));
    assert!(matches.matched(1));
    assert!(matches.matched(2));
}
