use bevy_platform::collections::HashMap;
use bweb::{PathMatchError, PathSegment, RouteParseResult, RouterPath};

#[test]
fn test_root() {
    let input = "/";
    let result = RouterPath::from_static(input).unwrap();

    assert_eq!(result, RouterPath(vec![PathSegment::Root,]));
}

#[test]
fn test_basic_url() {
    let input = "/static/:param";
    let result = RouterPath::from_static(input).unwrap();

    assert_eq!(
        result,
        RouterPath(vec![
            PathSegment::Static("static".into()),
            PathSegment::Param("param".into())
        ])
    );
}

#[test]
fn test_parse() {
    let pattern = "/static/:param";
    let result = RouterPath::from_static(pattern).unwrap();

    let input = "/static/coolio/last";

    let params = result.parse_path(input).unwrap();

    assert_eq!(
        params,
        RouteParseResult {
            matched: "/static/coolio",
            remainder: "/last",
            params: HashMap::from_iter([(String::from("param"), String::from("coolio"))])
        }
    );
}

#[test]
fn test_input_too_short() {
    let pattern = "/static/:param";
    let result = RouterPath::from_static(pattern).unwrap();

    let input = "/static";

    let result = result.parse_path(input);

    assert!(result.is_err());
}

#[test]
fn empty_pattern_is_refused() {
    assert!(RouterPath::from_static("").is_err());
}

#[test]
fn empty_pieces_are_skipped() {
    let result = RouterPath::from_static("//a///:b/").unwrap();
    assert_eq!(
        result,
        RouterPath(vec![PathSegment::Static("a"), PathSegment::Param("b")])
    );
    assert_eq!(RouterPath::from_static("///").unwrap(), RouterPath(vec![]));
    assert_eq!(
        RouterPath::from_static("noslash").unwrap(),
        RouterPath(vec![PathSegment::Static("noslash")])
    );
    assert_eq!(
        RouterPath::from_static("/:").unwrap(),
        RouterPath(vec![PathSegment::Param("")])
    );
}

#[test]
fn root_pattern_matches_only_slash() {
    let root = RouterPath::from_static("/").unwrap();
    let res = root.parse_path("/").unwrap();
    assert_eq!(res.matched, "/");
    assert_eq!(res.remainder, "");
    assert!(res.params.is_empty());
    assert_eq!(root.parse_path("/x"), Err(PathMatchError::UnexpectedRoot));
    assert_eq!(root.parse_path(""), Err(PathMatchError::UnexpectedPathEnd));
}

#[test]
fn parse_errors() {
    let p = RouterPath::from_static("/static/:param").unwrap();
    assert_eq!(p.parse_path("/other/x"), Err(PathMatchError::StaticMismatch));
    assert_eq!(p.parse_path("/static"), Err(PathMatchError::UnexpectedPathEnd));
    assert_eq!(PathMatchError::StaticMismatch.message(), "failed to match static path segment");
    assert_eq!(PathMatchError::UnexpectedPathEnd.message(), "unexpected path end");
    assert_eq!(PathMatchError::UnexpectedRoot.message(), "unexpected root");
}

#[test]
fn parse_exact_and_params() {
    let p = RouterPath::from_static("/users/:id/posts/:post").unwrap();
    let res = p.parse_path("/users/7/posts/42").unwrap();
    assert_eq!(res.matched, "/users/7/posts/42");
    assert_eq!(res.remainder, "");
    let partial = p.parse_path("/users/7/posts/42/comments").unwrap();
    assert_eq!(
        format!("{}{}", partial.matched, partial.remainder),
        "/users/7/posts/42/comments"
    );
    assert_eq!(res.params.get("id").map(|s| s.as_str()), Some("7"));
    assert_eq!(res.params.get("post").map(|s| s.as_str()), Some("42"));
    assert_eq!(res.params.len(), 2);
}

#[test]
fn repeated_param_keeps_last_binding() {
    let p = RouterPath::from_static("/:x/:x").unwrap();
    let res = p.parse_path("/a/b").unwrap();
    assert_eq!(res.params.get("x").map(|s| s.as_str()), Some("b"));
    assert_eq!(res.params.len(), 1);
}

#[test]
fn empty_pattern_matches_nothing() {
    let p = RouterPath::from_static("///").unwrap();
    let res = p.parse_path("/a/b").unwrap();
    assert_eq!(res.matched, "");
    assert_eq!(res.remainder, "/a/b");
}

#[test]
fn trailing_slash_gives_empty_segment() {
    let p = RouterPath::from_static("/a/:rest").unwrap();
    let res = p.parse_path("/a/").unwrap();
    assert_eq!(res.params.get("rest").map(|s| s.as_str()), Some(""));
    assert_eq!(res.matched, "/a/");
    assert_eq!(res.remainder, "");
}

#[test]
fn unicode_segments() {
    let p = RouterPath::from_static("/caf\u{e9}/:n").unwrap();
    let res = p.parse_path("/caf\u{e9}/\u{65e5}\u{672c}/x").unwrap();
    assert_eq!(res.params.get("n").map(|s| s.as_str()), Some("\u{65e5}\u{672c}"));
    assert_eq!(res.remainder, "/x");
}

#[test]
fn match_ignores_what_follows() {
    let p = RouterPath::from_static("/static/:param").unwrap();
    let first = p.parse_path("/static/coolio/last").unwrap();
    let again = p.parse_path("/static/coolio/other/x").unwrap();
    assert_eq!(first.matched, again.matched);
    assert_eq!(first.params, again.params);
    let bare = p.parse_path("/static/coolio").unwrap();
    assert_eq!(bare.matched, "/static/coolio");
    assert_eq!(bare.remainder, "");
    assert_eq!(bare.params, first.params);
}
