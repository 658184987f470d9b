use bweb::{
    resolve_routes, MatchedRoute, Route, RouteNode, RouteParams, RouteTree, RouteUpdate,
};

fn update(node: usize, route: usize, matched: &str) -> RouteUpdate {
    RouteUpdate { node, route, matched: matched.to_string() }
}

#[test]
fn best_match_prefers_specific_routes() {
    let r = Route::new()
        .route("/:page", "param")
        .route("/about", "about")
        .route("/about/:x", "deeper");
    let (i, res) = r.best_match("/about").unwrap();
    assert_eq!(i, 1);
    assert_eq!(*r.element(i), "about");
    assert_eq!(res.matched, "/about");
    let (i, _) = r.best_match("/contact").unwrap();
    assert_eq!(i, 0);
    let (i, res) = r.best_match("/about/me/more").unwrap();
    assert_eq!(i, 2);
    assert_eq!(res.remainder, "/more");
    assert!(Route::<&str>::new().route("/a", "a").best_match("/b").is_none());
}

#[test]
fn ties_go_to_the_first_route() {
    let r = Route::new().route("/:a", 1).route("/:b", 2);
    let (i, res) = r.best_match("/x").unwrap();
    assert_eq!(i, 0);
    assert_eq!(res.params.get("a").map(|s| s.as_str()), Some("x"));
}

#[test]
fn resolve_threads_the_path_through_the_tree() {
    let outer = Route::new().route("/users/:id", "user").route("/", "home");
    let inner = Route::new().route("/posts/:post", "post").route("/:tab", "tab");
    let tree = RouteTree {
        nodes: vec![
            RouteNode { route: None, matched: None, children: vec![1, 3] },
            RouteNode { route: Some(&outer), matched: None, children: vec![2] },
            RouteNode { route: Some(&inner), matched: None, children: vec![] },
            RouteNode { route: Some(&inner), matched: None, children: vec![] },
        ],
    };
    let mut params = RouteParams::default();
    let updates = resolve_routes(&tree, 0, "/users/7/posts/9", &mut params);
    assert_eq!(
        updates,
        vec![update(1, 0, "/users/7"), update(2, 0, "/posts/9")]
    );
    assert_eq!(params.get("id"), Some("7"));
    assert_eq!(params.get("post"), Some("9"));
    assert_eq!(params.get("tab"), None);
}

#[test]
fn already_matched_nodes_are_left_alone() {
    let outer = Route::new().route("/users/:id", "user");
    let inner = Route::new().route("/:tab", "tab");
    let shown = MatchedRoute::new("/users/7".to_string());
    let tree = RouteTree {
        nodes: vec![
            RouteNode { route: None, matched: None, children: vec![1] },
            RouteNode { route: Some(&outer), matched: Some(&shown), children: vec![2] },
            RouteNode { route: Some(&inner), matched: None, children: vec![] },
        ],
    };
    let mut params = RouteParams::default();
    let updates = resolve_routes(&tree, 0, "/users/7/settings", &mut params);
    assert_eq!(updates, vec![update(2, 0, "/settings")]);
    // The parameters of a node that keeps its route are not bound again.
    assert_eq!(params.get("id"), None);
    assert_eq!(params.get("tab"), Some("settings"));
}

#[test]
fn resolve_clears_old_params_and_skips_unmatched() {
    let r = Route::new().route("/a", "a");
    let tree = RouteTree {
        nodes: vec![
            RouteNode { route: None, matched: None, children: vec![1] },
            RouteNode { route: Some(&r), matched: None, children: vec![] },
        ],
    };
    let mut params = RouteParams::default();
    let first = resolve_routes(&tree, 0, "/a", &mut params);
    assert_eq!(first, vec![update(1, 0, "/a")]);
    let mut stale = RouteParams::default();
    let other = Route::new().route("/:q", "q");
    let tree2 = RouteTree {
        nodes: vec![
            RouteNode { route: None, matched: None, children: vec![1] },
            RouteNode { route: Some(&other), matched: None, children: vec![] },
        ],
    };
    resolve_routes(&tree2, 0, "/zz", &mut stale);
    assert_eq!(stale.get("q"), Some("zz"));
    let none = resolve_routes(&tree, 0, "/b", &mut stale);
    assert!(none.is_empty());
    assert_eq!(stale.get("q"), None);
}

#[test]
fn later_updates_override_parameters() {
    let outer = Route::new().route("/:id", "outer");
    let inner = Route::new().route("/:id/:extra", "inner");
    let tree = RouteTree {
        nodes: vec![
            RouteNode { route: None, matched: None, children: vec![1] },
            RouteNode { route: Some(&outer), matched: None, children: vec![2] },
            RouteNode { route: Some(&inner), matched: None, children: vec![] },
        ],
    };
    let mut params = RouteParams::default();
    let updates = resolve_routes(&tree, 0, "/a/b/c", &mut params);
    assert_eq!(updates, vec![update(1, 0, "/a"), update(2, 0, "/b/c")]);
    assert_eq!(params.get("id"), Some("b"));
    assert_eq!(params.get("extra"), Some("c"));
    assert_eq!(params.get("other"), None);
}

#[test]
fn multibyte_paths_resolve_only_without_segments() {
    let empty = Route::new().route("///", "empty");
    let tree = RouteTree {
        nodes: vec![
            RouteNode { route: None, matched: None, children: vec![1] },
            RouteNode { route: Some(&empty), matched: None, children: vec![] },
        ],
    };
    assert!(tree.can_resolve(0, "\u{e9}x"));
    let mut params = RouteParams::default();
    let updates = resolve_routes(&tree, 0, "\u{e9}x", &mut params);
    assert_eq!(updates, vec![update(1, 0, "")]);

    let real = Route::new().route("/a", "a");
    let tree2 = RouteTree {
        nodes: vec![
            RouteNode { route: None, matched: None, children: vec![1] },
            RouteNode { route: None, matched: None, children: vec![2] },
            RouteNode { route: Some(&real), matched: None, children: vec![] },
        ],
    };
    assert!(!tree2.can_resolve(0, "\u{e9}x"));
    assert!(tree2.can_resolve(0, "/a"));
    assert!(tree2.can_resolve(0, ""));
}
