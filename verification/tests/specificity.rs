use bweb::{RouterPath};
use std::cmp::Ordering;

fn p(s: &'static str) -> RouterPath {
    RouterPath::from_static(s).unwrap()
}

#[test]
fn longer_is_more_specific() {
    assert_eq!(p("/a/b").cmp_specificity(&p("/a")), Ordering::Greater);
    assert_eq!(p("/:x").cmp_specificity(&p("/a/b")), Ordering::Less);
}

#[test]
fn static_beats_param() {
    assert_eq!(p("/a/:b").cmp_specificity(&p("/:a/b")), Ordering::Greater);
    assert_eq!(p("/:a/b").cmp_specificity(&p("/a/:b")), Ordering::Less);
    assert_eq!(p("/a/:b").cmp_specificity(&p("/c/:d")), Ordering::Equal);
    assert!(p("/a").is_more_specific(&p("/:a")));
    assert!(!p("/:a").is_more_specific(&p("/a")));
}

#[test]
fn antisymmetric_and_reflexive_examples() {
    let xs = [p("/a"), p("/:a"), p("/a/:b"), p("/:a/b"), p("/"), p("/x/y/z")];
    for a in xs.iter() {
        assert_eq!(a.cmp_specificity(a), Ordering::Equal);
        for b in xs.iter() {
            assert_eq!(a.cmp_specificity(b), b.cmp_specificity(a).reverse());
        }
    }
}

#[test]
fn root_is_not_transitive() {
    // The root segment is as specific as any other single segment.
    assert_eq!(p("/a").cmp_specificity(&p("/")), Ordering::Equal);
    assert_eq!(p("/").cmp_specificity(&p("/:b")), Ordering::Equal);
    assert_eq!(p("/a").cmp_specificity(&p("/:b")), Ordering::Greater);
}

#[test]
fn specificity_chains_without_root() {
    let a = p("/a/b/:c");
    let b = p("/a/:b/c");
    let c = p("/:a/b/c");
    assert_eq!(a.cmp_specificity(&b), Ordering::Greater);
    assert_eq!(b.cmp_specificity(&c), Ordering::Greater);
    assert_eq!(a.cmp_specificity(&c), Ordering::Greater);
    let d = p("/x/:y/z");
    assert_eq!(b.cmp_specificity(&d), Ordering::Equal);
    assert_eq!(d.cmp_specificity(&p("/q/:r/s")), Ordering::Equal);
    assert_eq!(b.cmp_specificity(&p("/q/:r/s")), Ordering::Equal);
}
