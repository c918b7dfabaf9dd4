use web_server::router::{remove_first_occurrence, route_key, Router};

#[test]
fn test_remove_first_occurrence() {
    let input = "pages/index.html";
    let pattern = "pages";
    let result = remove_first_occurrence(input, pattern);
    assert_eq!(result, "/index.html");
}

#[test]
fn test_remove_first_occurrence_no_match() {
    assert_eq!(remove_first_occurrence("about.html", "pages"), "about.html");
}

#[test]
fn test_remove_first_occurrence_empty_remainder() {
    assert_eq!(remove_first_occurrence("pages", "pages"), "/");
}

#[test]
fn test_remove_first_occurrence_repeated_prefix() {
    assert_eq!(remove_first_occurrence("pagespages/x", "pages"), "/x");
}

#[test]
fn test_remove_first_occurrence_empty_pattern() {
    assert_eq!(remove_first_occurrence("abc", ""), "abc");
    assert_eq!(remove_first_occurrence("", ""), "/");
}

#[test]
fn test_route_key_root_index() {
    assert_eq!(route_key("pages/index.html"), "/");
}

#[test]
fn test_route_key_nested_index() {
    assert_eq!(route_key("pages/a/index.html"), "/a");
}

#[test]
fn test_route_key_html_suffix_stripped() {
    assert_eq!(route_key("pages/about.html"), "/about");
}

#[test]
fn test_route_key_non_html_kept() {
    assert_eq!(route_key("pages/assets/logo.svg"), "/assets/logo.svg");
}

#[test]
fn test_router_lookup_hits() {
    let files = vec![
        String::from("pages/index.html"),
        String::from("pages/about.html"),
        String::from("pages/a/index.html"),
        String::from("pages/assets/logo.svg"),
    ];
    let router = Router::new(&files);
    assert_eq!(router.lookup("/").unwrap(), "pages/index.html");
    assert_eq!(router.lookup("/about").unwrap(), "pages/about.html");
    assert_eq!(router.lookup("/a").unwrap(), "pages/a/index.html");
    assert_eq!(router.lookup("/assets/logo.svg").unwrap(), "pages/assets/logo.svg");
    assert!(router.lookup("/missing").is_none());
}

#[test]
fn test_router_root_key_absent_without_root_index() {
    let files = vec![String::from("pages/about.html")];
    let router = Router::new(&files);
    assert!(router.lookup("/").is_none());
}

#[test]
fn test_router_last_writer_wins() {
    // `pages/a.html` and `pages/a/index.html` collide on the key `/a`;
    // the file the walk visits later wins.
    let files = vec![String::from("pages/a.html"), String::from("pages/a/index.html")];
    let router = Router::new(&files);
    assert_eq!(router.lookup("/a").unwrap(), "pages/a/index.html");
}

#[test]
fn test_get_routes_entries() {
    let files = vec![String::from("pages/index.html")];
    let router = Router::new(&files);
    let entries = router.get_routes();
    assert_eq!(entries.len(), 1);
    assert_eq!(entries[0].0, "/");
    assert_eq!(entries[0].1, "pages/index.html");
}
