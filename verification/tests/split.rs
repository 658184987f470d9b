use bweb::TrackedSplit;

#[test]
fn split_walks_segments() {
    let mut s = TrackedSplit::new("/a/bc/d");
    assert_eq!(s.consumed(), "");
    assert_eq!(s.remainder(), "/a/bc/d");
    assert_eq!(s.next(), Some("a"));
    assert_eq!(s.consumed(), "/a");
    assert_eq!(s.remainder(), "/bc/d");
    assert_eq!(format!("{}{}", s.consumed(), s.remainder()), "/a/bc/d");
    assert_eq!(s.next(), Some("bc"));
    assert_eq!(s.next(), Some("d"));
    assert_eq!(s.consumed(), "/a/bc/d");
    assert_eq!(s.remainder(), "");
    assert_eq!(s.next(), None);
    assert_eq!(s.next(), None);
}

#[test]
fn split_empty_and_slashes() {
    let mut e = TrackedSplit::new("");
    assert_eq!(e.next(), None);
    let mut s = TrackedSplit::new("//");
    assert_eq!(s.next(), Some(""));
    assert_eq!(s.next(), Some(""));
    assert_eq!(s.next(), None);
}

#[test]
fn split_without_leading_slash_drops_first_char() {
    let mut s = TrackedSplit::new("ab/c");
    assert_eq!(s.next(), Some("b"));
    assert_eq!(s.next(), Some("c"));
    assert_eq!(s.next(), None);
}

fn all_segments(s: &str) -> Vec<&str> {
    let mut t = TrackedSplit::new(s);
    let mut out = Vec::new();
    let mut before = t.consumed().len();
    while let Some(seg) = t.next() {
        assert!(t.consumed().len() >= before);
        before = t.consumed().len();
        out.push(seg);
    }
    assert_eq!(t.next(), None);
    out
}

#[test]
fn segments_are_the_split_at_slashes() {
    for s in ["/", "/a/", "/a/bc/d", "//x", "/\u{65e5}/b"] {
        let segs = all_segments(s);
        assert_eq!(segs, s[1..].split('/').collect::<Vec<&str>>());
        assert_eq!(format!("/{}", segs.join("/")), s);
    }
    assert_eq!(all_segments("/"), vec![""]);
    assert_eq!(all_segments("/a/"), vec!["a", ""]);
}
