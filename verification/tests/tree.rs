use std::sync::Arc;

use treemux::{Handler, HandlerConfig, Method, Node, Params};

type Route = (&'static str, &'static str);

fn add_path(node: &mut Node<Route>, path: &'static str, response_header: &'static str) {
    add_method_path(node, Method::GET, path, response_header)
}

fn add_method_path(
    node: &mut Node<Route>,
    method: Method,
    path: &'static str,
    response_header: &'static str,
) {
    node.try_insert(HandlerConfig {
        method,
        path: path.into(),
        implicit_head: false,
        add_slash: false,
        head_can_use_get: false,
        value: (path, response_header),
    })
    .unwrap();
}

fn test_path(node: &Node<Route>, path: &str, expected_path: &str, expected_params: Params) {
    test_path_ext(node, &Method::GET, path, expected_path, "root-router", expected_params)
}

fn test_path_ext(
    node: &Node<Route>,
    method: &Method,
    path: &str,
    expected_path: &str,
    expected_header: &str,
    expected_params: Params,
) {
    let found = node.search(method, path);
    if expected_path.is_empty() {
        assert!(found.is_none(), "Expected no match for {} in\n{}", path, node.dump_tree("", ""));
        return;
    }
    let found = match found {
        Some(found) => found,
        None => panic!("No match for {}, expected {}", path, expected_path),
    };
    let (matched_path, actual_header) = *found.value.unwrap();
    assert_eq!(matched_path, expected_path, "Path {} in\n{}", path, node.dump_tree("", ""));
    assert_eq!(actual_header, expected_header, "Path {} in\n{}", path, node.dump_tree("", ""));
    if expected_params.is_empty() {
        assert!(found.params.is_empty(), "Path {} saw {:?}", path, found.params);
    } else {
        assert!(expected_params.len() <= found.params.len());
        assert_eq!(expected_params, found.parameters, "expected_path={}", expected_path);
    }
}

fn unit_handler() -> Handler<()> {
    Handler {
        method: Method::GET,
        value: Arc::new(()),
        implicit_head: false,
        head_can_use_get: false,
        add_slash: false,
    }
}

fn names(list: &[&str]) -> Option<Vec<String>> {
    Some(list.iter().map(|s| s.to_string()).collect())
}

/// Adds a path, or panics with the reason why it is refused.
fn add_or_panic(node: &mut Node<()>, path: &str, wildcards: Option<Vec<String>>) {
    match node.refusal(path, &wildcards, false, &Method::GET) {
        Some(e) => panic!("{:?}", e),
        None => node.add_path(path, wildcards, false, unit_handler()),
    }
}

fn make_root_node() -> Node<Route> {
    let mut root = Node::new();
    add_path(&mut root, "/", "root-router");
    add_method_path(&mut root, Method::POST, "/", "root-router");
    add_path(&mut root, "/images", "root-router");
    add_path(&mut root, "/images/abc.jpg", "root-router");
    add_path(&mut root, "/images/:imgname", "root-router");
    add_path(&mut root, "/images/\\*path", "root-router");
    add_path(&mut root, "/images/\\*patch", "root-router");
    add_path(&mut root, "/images/*path", "root-router");
    add_path(&mut root, "/appcenter", "root-router");
    add_path(&mut root, "/apps", "root-router");
    add_path(&mut root, "/apps/inventory", "root-router");
    add_method_path(&mut root, Method::POST, "/apps/inventory", "root-router");
    add_path(&mut root, "/apps/settings/default", "root-router");
    add_path(&mut root, "/post/:post/page/:page", "root-router");
    root
}
#[test]
fn test_merge_node_no_overlap() {
    let mut root = make_root_node();

    // no overlap with existing paths, so just inserts
    let mut sub1 = Node::new();
    add_path(&mut sub1, "/", "sub1-router");
    add_path(&mut sub1, "/approve", "sub1-router");
    add_path(&mut sub1, "/unapprove", "sub1-router");
    root.try_extend("/api".into(), sub1).unwrap();

    test_path_ext(
        &root,
        &Method::GET,
        "/api/approve",
        "/approve",
        "sub1-router",
        Params::default(),
    );
    test_path_ext(
        &root,
        &Method::GET,
        "/apps/inventory",
        "/apps/inventory",
        "root-router",
        Params::default(),
    );
}
#[test]
fn test_merge_node_simple_overlap() {
    let mut root = make_root_node();
    // overlaps with existing paths, this overrides (Method, Path) entries that previously existed
    let mut sub2 = Node::new();
    add_path(&mut sub2, "/", "sub2-router");
    add_path(&mut sub2, "/search", "sub2-router");
    add_path(&mut sub2, "/settings/other", "sub2-router");
    add_method_path(&mut sub2, Method::POST, "/inventory", "sub2-router");

    root.try_extend("/apps".into(), sub2).unwrap();

    test_path_ext(&root, &Method::GET, "/apps", "/", "sub2-router", Params::default());
    test_path_ext(
        &root,
        &Method::GET,
        "/apps/search",
        "/search",
        "sub2-router",
        Params::default(),
    );
    test_path_ext(
        &root,
        &Method::GET,
        "/apps/inventory",
        "/apps/inventory",
        "root-router",
        Params::default(),
    );
    test_path_ext(
        &root,
        &Method::POST,
        "/apps/inventory",
        "/inventory",
        "sub2-router",
        Params::default(),
    );
}

#[test]
fn test_merge_node_no_overlap_root() {
    let mut root = make_root_node();
    let mut sub2 = Node::new();
    add_path(&mut sub2, "/search", "sub2-router");
    add_path(&mut sub2, "/settings/other", "sub2-router");
    add_method_path(&mut sub2, Method::POST, "/inventory", "sub2-router");

    root.try_extend("/apps".into(), sub2).unwrap();

    test_path_ext(&root, &Method::GET, "/apps", "/apps", "root-router", Params::default());
    test_path_ext(
        &root,
        &Method::GET,
        "/apps/search",
        "/search",
        "sub2-router",
        Params::default(),
    );
    test_path_ext(
        &root,
        &Method::GET,
        "/apps/inventory",
        "/apps/inventory",
        "root-router",
        Params::default(),
    );
    test_path_ext(
        &root,
        &Method::POST,
        "/apps/inventory",
        "/inventory",
        "sub2-router",
        Params::default(),
    );
}

#[test]
fn test_merge_node_route_params_no_overlap() {
    let mut root = make_root_node();
    let mut sub3 = Node::new();
    add_path(&mut sub3, "/", "sub3-router");
    add_path(&mut sub3, "/approve", "sub3-router");
    add_path(&mut sub3, "/unapprove", "sub3-router");
    root.try_extend("/blog/post/:post/page/:page".into(), sub3).unwrap();

    test_path_ext(
        &root,
        &Method::GET,
        "/blog/post/4254/page/3/approve",
        "/approve",
        "sub3-router",
        Params(vec![("post", "4254").into(), ("page", "3").into()]),
    );
    test_path_ext(
        &root,
        &Method::GET,
        "/blog/post/4254/page/3",
        "/",
        "sub3-router",
        Params(vec![("post", "4254").into(), ("page", "3").into()]),
    );
}
#[test]
fn test_merge_node_route_params_overlap() {
    let mut root = make_root_node();
    let mut sub4 = Node::new();
    add_path(&mut sub4, "/", "sub4-router");
    add_path(&mut sub4, "/approve", "sub4-router");
    add_path(&mut sub4, "/unapprove", "sub4-router");
    root.try_extend("/post/:post/page/:page".into(), sub4).unwrap();

    test_path_ext(
        &root,
        &Method::GET,
        "/post/4254/page/3/approve",
        "/approve",
        "sub4-router",
        Params(vec![("post", "4254").into(), ("page", "3").into()]),
    );
    test_path_ext(
        &root,
        &Method::GET,
        "/post/4254/page/3",
        "/",
        "sub4-router",
        Params(vec![("post", "4254").into(), ("page", "3").into()]),
    );
}
#[test]
fn test_merge_node_route_params_root_overlap() {
    let mut root = make_root_node();
    let mut sub4 = Node::new();
    add_path(&mut sub4, "/approve", "sub4-router");
    add_path(&mut sub4, "/unapprove", "sub4-router");
    root.try_extend("/post/:post/page/:page".into(), sub4).unwrap();

    test_path_ext(
        &root,
        &Method::GET,
        "/post/4254/page/3/approve",
        "/approve",
        "sub4-router",
        Params(vec![("post", "4254").into(), ("page", "3").into()]),
    );
    test_path_ext(
        &root,
        &Method::GET,
        "/post/4254/page/3",
        "/post/:post/page/:page",
        "root-router",
        Params(vec![("post", "4254").into(), ("page", "3").into()]),
    );
}


#[test]
fn test_tree() {
    let mut root = Node::new();
    add_path(&mut root, "/", "root-router");
    add_path(&mut root, "/i", "root-router");
    add_path(&mut root, "/i/:aaa", "root-router");
    add_path(&mut root, "/images", "root-router");
    add_path(&mut root, "/images/abc.jpg", "root-router");
    add_path(&mut root, "/images/:imgname", "root-router");
    add_path(&mut root, "/images/\\*path", "root-router");
    add_path(&mut root, "/images/\\*patch", "root-router");
    add_path(&mut root, "/images/*path", "root-router");
    add_path(&mut root, "/ima", "root-router");
    add_path(&mut root, "/ima/:par", "root-router");
    add_path(&mut root, "/images1", "root-router");
    add_path(&mut root, "/images2", "root-router");
    add_path(&mut root, "/apples", "root-router");
    add_path(&mut root, "/app/les", "root-router");
    add_path(&mut root, "/apples1", "root-router");
    add_path(&mut root, "/appeasement", "root-router");
    add_path(&mut root, "/appealing", "root-router");
    add_path(&mut root, "/date/\\:year/\\:month", "root-router");
    add_path(&mut root, "/date/:year/:month", "root-router");
    add_path(&mut root, "/date/:year/month", "root-router");
    add_path(&mut root, "/date/:year/:month/abc", "root-router");
    add_path(&mut root, "/date/:year/:month/:post", "root-router");
    add_path(&mut root, "/date/:year/:month/*post", "root-router");
    add_path(&mut root, "/:page", "root-router");
    add_path(&mut root, "/:page/:index", "root-router");
    add_path(&mut root, "/post/:post/page/:page", "root-router");
    add_path(&mut root, "/plaster", "root-router");
    add_path(&mut root, "/users/:pk/:related", "root-router");
    add_path(&mut root, "/users/:id/updatePassword", "root-router");
    add_path(&mut root, "/:something/abc", "root-router");
    add_path(&mut root, "/:something/def", "root-router");
    add_path(&mut root, "/apples/ab:cde/:fg/*hi", "root-router");
    add_path(&mut root, "/apples/ab*cde/:fg/*hi", "root-router");
    add_path(&mut root, "/apples/ab\\*cde/:fg/*hi", "root-router");
    add_path(&mut root, "/apples/ab*dde", "root-router");

    test_path(
        &root,
        "/users/abc/updatePassword",
        "/users/:id/updatePassword",
        Params(vec![("id", "abc").into()]),
    );
    test_path(
        &root,
        "/users/all/something",
        "/users/:pk/:related",
        Params(vec![("pk", "all").into(), ("related", "something").into()]),
    );

    test_path(
        &root,
        "/aaa/abc",
        "/:something/abc",
        Params(vec![("something", "aaa").into()]),
    );
    test_path(
        &root,
        "/aaa/def",
        "/:something/def",
        Params(vec![("something", "aaa").into()]),
    );

    test_path(&root, "/paper", "/:page", Params(vec![("page", "paper").into()]));

    test_path(&root, "/", "/", Params::default());
    test_path(&root, "/i", "/i", Params::default());
    test_path(&root, "/images", "/images", Params::default());
    test_path(&root, "/images/abc.jpg", "/images/abc.jpg", Params::default());
    test_path(
        &root,
        "/images/something",
        "/images/:imgname",
        Params(vec![("imgname", "something").into()]),
    );
    test_path(
        &root,
        "/images/long/path",
        "/images/*path",
        Params(vec![("path", "long/path").into()]),
    );
    test_path(
        &root,
        "/images/even/longer/path",
        "/images/*path",
        Params(vec![("path", "even/longer/path").into()]),
    );
    test_path(&root, "/ima", "/ima", Params::default());
    test_path(&root, "/apples", "/apples", Params::default());
    test_path(&root, "/app/les", "/app/les", Params::default());
    test_path(&root, "/abc", "/:page", Params(vec![("page", "abc").into()]));
    test_path(
        &root,
        "/abc/100",
        "/:page/:index",
        Params(vec![("page", "abc").into(), ("index", "100").into()]),
    );
    test_path(
        &root,
        "/post/a/page/2",
        "/post/:post/page/:page",
        Params(vec![("post", "a").into(), ("page", "2").into()]),
    );
    test_path(
        &root,
        "/date/2014/5",
        "/date/:year/:month",
        Params(vec![("year", "2014").into(), ("month", "5").into()]),
    );
    test_path(
        &root,
        "/date/2014/month",
        "/date/:year/month",
        Params(vec![("year", "2014").into()]),
    );
    test_path(
        &root,
        "/date/2014/5/abc",
        "/date/:year/:month/abc",
        Params(vec![("year", "2014").into(), ("month", "5").into()]),
    );
    test_path(
        &root,
        "/date/2014/5/def",
        "/date/:year/:month/:post",
        Params(vec![
            ("year", "2014").into(),
            ("month", "5").into(),
            ("post", "def").into(),
        ]),
    );
    test_path(
        &root,
        "/date/2014/5/def/hij",
        "/date/:year/:month/*post",
        Params(vec![
            ("year", "2014").into(),
            ("month", "5").into(),
            ("post", "def/hij").into(),
        ]),
    );
    test_path(
        &root,
        "/date/2014/5/def/hij/",
        "/date/:year/:month/*post",
        Params(vec![
            ("year", "2014").into(),
            ("month", "5").into(),
            ("post", "def/hij/").into(),
        ]),
    );

    test_path(
        &root,
        "/date/2014/ab%2f",
        "/date/:year/:month",
        Params(vec![("year", "2014").into(), ("month", "ab/").into()]),
    );
    test_path(
        &root,
        "/post/ab%2fdef/page/2%2f",
        "/post/:post/page/:page",
        Params(vec![("post", "ab/def").into(), ("page", "2/").into()]),
    );

    // Test paths with escaped wildcard characters.
    test_path(&root, "/images/*path", "/images/\\*path", Params::default());
    test_path(&root, "/images/*patch", "/images/\\*patch", Params::default());
    test_path(&root, "/date/:year/:month", "/date/\\:year/\\:month", Params::default());
    test_path(
        &root,
        "/apples/ab*cde/lala/baba/dada",
        "/apples/ab*cde/:fg/*hi",
        Params(vec![("fg", "lala").into(), ("hi", "baba/dada").into()]),
    );
    test_path(
        &root,
        "/apples/ab\\*cde/lala/baba/dada",
        "/apples/ab\\*cde/:fg/*hi",
        Params(vec![("fg", "lala").into(), ("hi", "baba/dada").into()]),
    );
    test_path(
        &root,
        "/apples/ab:cde/:fg/*hi",
        "/apples/ab:cde/:fg/*hi",
        Params(vec![("fg", ":fg").into(), ("hi", "*hi").into()]),
    );
    test_path(
        &root,
        "/apples/ab*cde/:fg/*hi",
        "/apples/ab*cde/:fg/*hi",
        Params(vec![("fg", ":fg").into(), ("hi", "*hi").into()]),
    );
    test_path(
        &root,
        "/apples/ab*cde/one/two/three",
        "/apples/ab*cde/:fg/*hi",
        Params(vec![("fg", "one").into(), ("hi", "two/three").into()]),
    );
    test_path(&root, "/apples/ab*dde", "/apples/ab*dde", Params::default());

    test_path(&root, "/ima/bcd/fgh", "", Params::default());
    test_path(&root, "/date/2014//month", "", Params::default());
    test_path(&root, "/date/2014/05/", "", Params::default()); // Empty catchall should not match
    test_path(&root, "/post//abc/page/2", "", Params::default());
    test_path(&root, "/post/abc//page/2", "", Params::default());
    test_path(&root, "/post/abc/page//2", "", Params::default());
    test_path(&root, "//post/abc/page/2", "", Params::default());
    test_path(&root, "//post//abc//page//2", "", Params::default());
}

#[test]
#[should_panic]
fn test_wildcard_mismatch() {
    let mut n: Node<()> = Node::new();
    let mut handler = unit_handler();
    handler.method = Method::POST;
    n.add_path("", names(&["first", "third"]), false, handler);
    assert_eq!(n.leaf_wildcard_names(), &names(&["first", "third"]));

    add_or_panic(&mut n, "", names(&["first", "second"]));
}

#[test]
#[should_panic]
fn test_panics_catch_all_trailing_slash() {
    let mut n: Node<()> = Node::new();
    add_or_panic(&mut n, "abc/*path/", None);
}

#[test]
#[should_panic]
fn test_panics_catch_all_conflict() {
    let mut n: Node<()> = Node::new();
    n.add_path("abc/*path", None, false, unit_handler());
    add_or_panic(&mut n, "abc/*paths", None);
}

#[test]
#[should_panic]
fn test_panics_catch_all_extra_segment() {
    let mut n: Node<()> = Node::new();
    add_or_panic(&mut n, "abc/*path/def", None);
}

#[test]
fn test_wildcard_success() {
    let mut n: Node<()> = Node::default();
    let wildcards = names(&["first", "second"]);
    n.add_path("", wildcards.clone(), false, unit_handler());
    assert_eq!(n.leaf_wildcard_names(), &wildcards);
}
