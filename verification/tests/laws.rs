use std::borrow::Cow;

use treemux::{Action, Builder, HandlerConfig, Method, Node, RedirectBehavior, RouterBuilder, Treemux};

fn config<'a>(method: Method, path: &'a str, value: &'static str) -> HandlerConfig<'a, &'static str> {
    HandlerConfig::new(method, Cow::Borrowed(path), value)
}

fn tree(routes: &[&'static str]) -> Node<&'static str> {
    let mut root = Node::new();
    for path in routes {
        root.try_insert(config(Method::GET, path, path)).unwrap();
    }
    root
}

fn value(root: &Node<&'static str>, method: &Method, path: &str) -> Option<&'static str> {
    root.search(method, path).and_then(|m| m.value.copied())
}

fn found(root: &Node<&'static str>, path: &str) -> Option<(&'static str, Vec<String>)> {
    root.search(&Method::GET, path).map(|m| (*m.value.unwrap(), m.params))
}

#[test]
fn static_text_goes_before_wildcards_and_catch_alls() {
    let routes =
        ["/:page", "/:year/:month/:post", "/:year/:month", "/images/*path", "/favicon.ico"];
    let root = tree(&routes);
    let at = |path: &str| found(&root, path).unwrap();
    assert_eq!(at("/abc"), ("/:page", vec!["abc".to_string()]));
    assert_eq!(at("/2014/05").0, "/:year/:month");
    assert_eq!(at("/2014/05/really-great-blog-post").0, "/:year/:month/:post");
    assert_eq!(at("/images/CoolImage.gif"), ("/images/*path", vec!["CoolImage.gif".to_string()]));
    assert_eq!(
        at("/images/2014/05/MayImage.jpg"),
        ("/images/*path", vec!["2014/05/MayImage.jpg".to_string()])
    );
    assert_eq!(at("/favicon.ico").0, "/favicon.ico");
}

#[test]
fn order_of_registration_makes_no_difference() {
    let forward = ["/post/all", "/post/:id", "/post/:id/page/:page", "/images/*path", "/:page"];
    let mut backward = forward;
    backward.reverse();
    let (a, b) = (tree(&forward), tree(&backward));
    for path in [
        "/post/all", "/post/1", "/post/1/", "/post/1/page/2", "/post/all/page/2", "/images",
        "/images/", "/images/a/b", "/nothing/here", "/", "",
    ] {
        assert_eq!(found(&a, path), found(&b, path), "{}", path);
    }
}

#[test]
fn found_handler_is_preferred_to_better_route_without_one() {
    let mut root = tree(&["/a/b"]);
    root.try_insert(config(Method::POST, "/a/:x", "post")).unwrap();
    root.try_insert(config(Method::PUT, "/a/*rest", "put")).unwrap();
    assert_eq!(value(&root, &Method::GET, "/a/b"), Some("/a/b"));
    assert_eq!(value(&root, &Method::POST, "/a/b"), Some("post"));
    assert_eq!(value(&root, &Method::PUT, "/a/b"), Some("put"));
    let none = root.search(&Method::DELETE, "/a/b").unwrap();
    assert!(none.value.is_none());
    assert_eq!(none.pattern, "b");
    assert_eq!(none.leaf_handler.len(), 1);
}

#[test]
fn wildcards_match_one_segment_that_is_not_empty() {
    let root = tree(&["/post/:postid", "/images/*path"]);
    assert!(found(&root, "/post/1").is_some());
    assert!(found(&root, "/post/").is_none());
    assert!(found(&root, "/post/1/2").is_none());
    assert!(found(&root, "/images/").is_none());
    assert_eq!(found(&root, "/images/abc/def").unwrap().1, vec!["abc/def".to_string()]);
}

#[test]
fn escapes_count_at_the_start_of_a_segment_only() {
    let root = tree(&[
        "/foo/\\*starToken",
        "/foo/star*inTheMiddle",
        "/foo/starBackslash\\*",
        "/foo/\\\\*backslashWithStar",
    ]);
    assert_eq!(found(&root, "/foo/*starToken").unwrap().0, "/foo/\\*starToken");
    assert_eq!(found(&root, "/foo/star*inTheMiddle").unwrap().0, "/foo/star*inTheMiddle");
    assert_eq!(found(&root, "/foo/starBackslash\\*").unwrap().0, "/foo/starBackslash\\*");
    assert_eq!(found(&root, "/foo/\\*backslashWithStar").unwrap().0, "/foo/\\\\*backslashWithStar");
}

#[test]
fn non_ascii_routes_match_their_paths() {
    let root = tree(&["/größe", "/größer", "/größe/:maß", "/π/*rest"]);
    assert_eq!(found(&root, "/größe").unwrap().0, "/größe");
    assert_eq!(found(&root, "/größer").unwrap().0, "/größer");
    assert_eq!(found(&root, "/größe/dünn").unwrap(), ("/größe/:maß", vec!["dünn".to_string()]));
    assert_eq!(found(&root, "/π/a/b").unwrap(), ("/π/*rest", vec!["a/b".to_string()]));
}

#[test]
fn other_routes_and_methods_are_kept() {
    let mut root = tree(&["/one", "/only", "/o/:x"]);
    let before = [found(&root, "/one"), found(&root, "/only"), found(&root, "/o/1")];
    root.try_insert(config(Method::GET, "/on", "on")).unwrap();
    root.try_insert(config(Method::PUT, "/one", "put")).unwrap();
    assert_eq!([found(&root, "/one"), found(&root, "/only"), found(&root, "/o/1")], before);
    assert_eq!(value(&root, &Method::GET, "/on"), Some("on"));
    assert_eq!(value(&root, &Method::PUT, "/one"), Some("put"));
    assert!(root.try_insert(config(Method::GET, "/on", "again")).is_err());
    assert_eq!(value(&root, &Method::GET, "/on"), Some("on"));
}

#[test]
fn head_follows_get_until_it_is_set() {
    let mut root: Node<&str> = Node::new();
    let mut get = config(Method::GET, "/a", "get");
    get.head_can_use_get = true;
    root.try_insert(get).unwrap();
    let found = root.search(&Method::HEAD, "/a").unwrap();
    assert_eq!(found.value, Some(&"get"));
    assert!(found.implicit_head);
    root.try_insert(config(Method::HEAD, "/a", "head")).unwrap();
    let found = root.search(&Method::HEAD, "/a").unwrap();
    assert_eq!(found.value, Some(&"head"));
    assert!(!found.implicit_head);
    assert_eq!(value(&root, &Method::GET, "/a"), Some("get"));
    assert!(root.try_insert(config(Method::HEAD, "/a", "other")).is_err());
}

#[test]
fn children_stand_in_the_order_of_their_priorities() {
    let mut root: Node<&str> = Node::new();
    for path in ["/a", "/b", "/b1", "/b2", "/c", "/c1"] {
        root.try_insert(config(Method::GET, path, "x")).unwrap();
    }
    let dump = root.dump_tree("", "");
    let top: Vec<&str> = dump
        .lines()
        .filter(|line| line.starts_with("   ") && !line.starts_with("    "))
        .map(|line| &line[3..7])
        .collect();
    assert_eq!(top, vec!["02 b", "01 c", "00 a"]);
}

#[test]
fn extension_brings_its_routes_and_keeps_the_others() {
    let mut root = tree(&["/api", "/api/old", "/apix", "/other/:x"]);
    let mut sub: Node<&'static str> = Node::new();
    for (method, path, value) in [
        (Method::GET, "/", "sub root"),
        (Method::GET, "/old", "sub old"),
        (Method::GET, "/new/:id", "sub new"),
        (Method::PUT, "/put", "sub put"),
    ] {
        sub.try_insert(config(method, path, value)).unwrap();
    }
    root.try_extend("/api".into(), sub).unwrap();
    assert_eq!(value(&root, &Method::GET, "/api/old"), Some("sub old"));
    assert_eq!(value(&root, &Method::GET, "/api/new/7"), Some("sub new"));
    assert_eq!(value(&root, &Method::PUT, "/api/put"), Some("sub put"));
    assert_eq!(value(&root, &Method::GET, "/apix"), Some("/apix"));
    assert_eq!(value(&root, &Method::GET, "/other/1"), Some("/other/:x"));
    assert_eq!(value(&root, &Method::GET, "/api"), Some("sub root"));
    assert_eq!(value(&root, &Method::GET, "/api/"), None);

    let mut root = tree(&["/api", "/api/old"]);
    let mut sub: Node<&'static str> = Node::new();
    sub.try_insert(config(Method::GET, "/", "sub root")).unwrap();
    root.try_extend("/api".into(), sub).unwrap();
    assert_eq!(value(&root, &Method::GET, "/api"), Some("sub root"));
    assert_eq!(value(&root, &Method::GET, "/api/old"), Some("/api/old"));
    assert_eq!(value(&root, &Method::GET, "/api/"), None);
}

#[test]
fn extension_overrides_only_what_both_define() {
    let mut root = tree(&["/apps/settings/default", "/apps/inventory"]);
    let sub = tree(&["/settings/other", "/search"]);
    root.try_extend("/apps".into(), sub).unwrap();
    assert_eq!(value(&root, &Method::GET, "/apps/settings/other"), Some("/settings/other"));
    assert_eq!(
        value(&root, &Method::GET, "/apps/settings/default"),
        Some("/apps/settings/default")
    );
    assert_eq!(value(&root, &Method::GET, "/apps/search"), Some("/search"));
    assert_eq!(value(&root, &Method::GET, "/apps/inventory"), Some("/apps/inventory"));

    let mut root: Node<&str> = Node::new();
    root.try_insert(config(Method::POST, "/a/sx", "old sx")).unwrap();
    let mut sub: Node<&str> = Node::new();
    sub.try_insert(config(Method::GET, "/sy", "new sy")).unwrap();
    root.try_extend("/a".into(), sub).unwrap();
    assert_eq!(value(&root, &Method::POST, "/a/sx"), Some("old sx"));
    assert_eq!(value(&root, &Method::GET, "/a/sy"), Some("new sy"));
    assert_eq!(value(&root, &Method::POST, "/a/sy"), None);
}

#[test]
fn extension_keeps_wildcards_and_catch_alls() {
    let mut root = tree(&["/a/", "/a/:x", "/a/:x/old", "/a/b/*rest", "/a/*all"]);
    let mut sub = tree(&["/:x/new", "/b/*rest"]);
    sub.try_insert(config(Method::PUT, "/*all", "put all")).unwrap();
    root.try_extend("/a".into(), sub).unwrap();
    assert_eq!(value(&root, &Method::GET, "/a/"), Some("/a/"));
    assert_eq!(value(&root, &Method::GET, "/a/1"), Some("/a/:x"));
    assert_eq!(value(&root, &Method::GET, "/a/1/old"), Some("/a/:x/old"));
    assert_eq!(value(&root, &Method::GET, "/a/1/new"), Some("/:x/new"));
    assert_eq!(value(&root, &Method::GET, "/a/b/c"), Some("/b/*rest"));
    assert_eq!(value(&root, &Method::GET, "/a/1/2/3"), Some("/a/*all"));
    assert_eq!(value(&root, &Method::PUT, "/a/1/2/3"), Some("put all"));
}

#[test]
fn mounted_routes_are_found_as_in_the_mounted_tree() {
    let mut root = tree(&["/api1", "/:x", "/:x/:y", "/*all"]);
    let sub = tree(&["/", "/a/:b", "/a/c", "/*rest"]);
    root.try_extend("/api".into(), tree(&["/", "/a/:b", "/a/c", "/*rest"])).unwrap();
    for rest in ["/a/1", "/a/c", "/x/y/z", "/a"] {
        let mounted = found(&root, &format!("/api{}", rest));
        assert_eq!(mounted, found(&sub, rest), "{}", rest);
    }
    assert_eq!(value(&root, &Method::GET, "/api"), Some("/"));
    assert_eq!(value(&root, &Method::GET, "/api1"), Some("/api1"));
    assert_eq!(value(&root, &Method::GET, "/other"), Some("/:x"));
    assert_eq!(value(&root, &Method::GET, "/other/one"), Some("/:x/:y"));
    assert_eq!(value(&root, &Method::GET, "/api2/a/b"), Some("/*all"));
}

#[test]
fn star_is_special_at_the_start_of_a_segment_only() {
    let mut root = tree(&["/sa"]);
    root.try_extend("/s*".into(), tree(&["/x"])).unwrap();
    assert_eq!(value(&root, &Method::GET, "/s*/x"), Some("/x"));
    let mut root: Node<&'static str> = Node::new();
    root.try_extend("/s*".into(), tree(&["/x"])).unwrap();
    assert_eq!(value(&root, &Method::GET, "/s*/x"), Some("/x"));
    assert!(root.try_extend("/t/*y".into(), tree(&["/x"])).is_err());
}

#[test]
fn only_what_was_registered_by_itself_is_refused() {
    let mut root: Node<&str> = Node::new();
    let mut get = config(Method::GET, "/a/:x/*y", "get");
    get.head_can_use_get = true;
    root.try_insert(get).unwrap();
    assert!(root.try_insert(config(Method::GET, "/a/:x/*y", "again")).is_err());
    root.try_insert(config(Method::PUT, "/a/:x/*y", "put")).unwrap();
    root.try_insert(config(Method::HEAD, "/a/:x/*y", "head")).unwrap();
    assert!(root.try_insert(config(Method::HEAD, "/a/:x/*y", "again")).is_err());
    root.try_insert(config(Method::GET, "/a/:other/:y", "other")).unwrap();
}

#[test]
fn methods_of_one_pattern_can_come_in_any_order() {
    let mut first: Node<&str> = Node::new();
    let mut second: Node<&str> = Node::new();
    let get = || {
        let mut get = config(Method::GET, "/a/:x", "get");
        get.head_can_use_get = true;
        get
    };
    first.try_insert(get()).unwrap();
    first.try_insert(config(Method::HEAD, "/a/:x", "head")).unwrap();
    second.try_insert(config(Method::HEAD, "/a/:x", "head")).unwrap();
    second.try_insert(get()).unwrap();
    for method in [Method::GET, Method::HEAD, Method::POST] {
        assert_eq!(value(&first, &method, "/a/1"), value(&second, &method, "/a/1"));
    }
}

#[test]
fn extension_gives_its_parameters_names() {
    let mut root: Node<&'static str> = tree(&["/x"]);
    let mut sub: Node<&'static str> = Node::new();
    sub.try_insert(config(Method::GET, "/approve", "approve")).unwrap();
    root.try_extend("/post/:post/page/:page".into(), sub).unwrap();
    let m = root.search(&Method::GET, "/post/4254/page/3/approve").unwrap();
    assert_eq!(m.parameters.get("post"), Some("4254"));
    assert_eq!(m.parameters.get("page"), Some("3"));
}

fn action(mux: &Treemux<&'static str>, method: &Method, path: &str, query: Option<&str>) -> String {
    match mux.respond(method, path, query, path) {
        Action::Call { handler, .. } => format!("call {}", handler),
        Action::GlobalOptions { handler } => format!("options {}", handler),
        Action::MethodNotAllowed { allowed, .. } => format!("not allowed {}", allowed.header_value()),
        Action::NotFound { .. } => "not found".to_string(),
        Action::Redirect { status, location } => format!("{} {}", status, location),
    }
}

#[test]
fn redirects_settle_on_one_form_of_a_path() {
    let mut router: Builder<&str> = Treemux::builder();
    router.get("/:year/:month/", "archive").unwrap();
    router.get("/about", "about").unwrap();
    router.get("/files/*path", "files").unwrap();
    let mux = router.build();
    assert_eq!(action(&mux, &Method::GET, "/2014/05", None), "301 /2014/05/");
    assert_eq!(action(&mux, &Method::GET, "/2014/05/", None), "call archive");
    assert_eq!(action(&mux, &Method::GET, "/about/", Some("a=1")), "301 /about?a=1");
    assert_eq!(action(&mux, &Method::GET, "/about", Some("a=1")), "call about");
    assert_eq!(action(&mux, &Method::GET, "/files/a/", None), "call files");
}

#[test]
fn handlers_are_used_where_redirects_are_off() {
    let mut router: Builder<&str> = Treemux::builder();
    router.redirect_behavior = Some(RedirectBehavior::UseHandler);
    router.get("/about", "about").unwrap();
    let mux = router.build();
    assert_eq!(action(&mux, &Method::GET, "/about/", None), "call about");
    let mut router: Builder<&str> = Treemux::builder();
    router.redirect_behavior = None;
    router.get("/about", "about").unwrap();
    let mux = router.build();
    assert_eq!(action(&mux, &Method::GET, "/about/", None), "call about");
}

#[test]
fn allowed_methods_find_a_handler() {
    let mut router: Builder<&str> = Treemux::builder();
    router.get("/a/:x", "get").unwrap();
    router.put("/a/:x", "put").unwrap();
    router.global_options("options");
    let mux = router.build();
    assert_eq!(action(&mux, &Method::POST, "/a/1", None), "not allowed GET, HEAD, PUT");
    assert_eq!(action(&mux, &Method::GET, "/a/1", None), "call get");
    assert_eq!(action(&mux, &Method::HEAD, "/a/1", None), "call get");
    assert_eq!(action(&mux, &Method::PUT, "/a/1", None), "call put");
    assert_eq!(action(&mux, &Method::OPTIONS, "/a/1", None), "options options");
    assert_eq!(action(&mux, &Method::OPTIONS, "/b", None), "not found");
}

#[test]
fn parameters_have_the_names_of_their_pattern() {
    let patterns = [
        "/post/all",
        "/post/:postid",
        "/post/:postid/page/:page",
        "/post/:postid/:page",
        "/images/*path",
        "/favicon.ico",
        "/:year/:month/",
        "/:year/:month/:post",
        "/:page",
    ];
    let mut router: Builder<&str> = Treemux::builder();
    for pattern in patterns {
        router.get(pattern, pattern).unwrap();
    }
    let mux = router.build();
    let answer = |path: &str| match mux.respond(&Method::GET, path, None, path) {
        Action::Call { handler, parameters } => {
            let params: Vec<String> =
                parameters.0.iter().map(|p| format!("{}={}", p.key, p.value)).collect();
            format!("{} {}", handler, params.join(" "))
        }
        other => panic!("{:?}", other),
    };
    assert_eq!(answer("/post/all"), "/post/all ");
    assert_eq!(answer("/post/7"), "/post/:postid postid=7");
    assert_eq!(answer("/post/7/page/2"), "/post/:postid/page/:page postid=7 page=2");
    assert_eq!(answer("/post/7/2"), "/post/:postid/:page postid=7 page=2");
    assert_eq!(answer("/images/a%20b/c.png"), "/images/*path path=a b/c.png");
    assert_eq!(answer("/favicon.ico"), "/favicon.ico ");
    assert_eq!(answer("/2014/05/"), "/:year/:month/ year=2014 month=05");
    assert_eq!(answer("/2014/05/day"), "/:year/:month/:post year=2014 month=05 post=day");
    assert_eq!(answer("/about"), "/:page page=about");
}

fn named(root: &Node<&'static str>, path: &str) -> Vec<(String, String)> {
    let found = root.search(&Method::GET, path).unwrap();
    found.parameters.0.iter().map(|p| (p.key.clone(), p.value.clone())).collect()
}

fn pairs(list: &[(&str, &str)]) -> Vec<(String, String)> {
    list.iter().map(|(k, v)| (k.to_string(), v.to_string())).collect()
}

#[test]
fn mounted_parameters_follow_those_of_the_mount_path() {
    let sub = || tree(&["/", "/:y", "/a", "/a/b", "/a/:z/c", "/files/*rest"]);
    let mut root = tree(&["/other"]);
    root.try_extend("/u/:x".into(), sub()).unwrap();
    assert_eq!(named(&root, "/u/1"), pairs(&[("x", "1")]));
    assert_eq!(named(&root, "/u/1/2"), pairs(&[("x", "1"), ("y", "2")]));
    assert_eq!(named(&root, "/u/1/a"), pairs(&[("x", "1")]));
    assert_eq!(named(&root, "/u/1/a/b"), pairs(&[("x", "1")]));
    assert_eq!(named(&root, "/u/1/a/2/c"), pairs(&[("x", "1"), ("z", "2")]));
    assert_eq!(named(&root, "/u/1/files/p/q"), pairs(&[("x", "1"), ("rest", "p/q")]));

    let mut root = tree(&["/u/:x", "/u/:x/old"]);
    root.try_extend("/u/:x".into(), sub()).unwrap();
    assert_eq!(named(&root, "/u/1/2"), pairs(&[("x", "1"), ("y", "2")]));
    assert_eq!(named(&root, "/u/1/old"), pairs(&[("x", "1")]));

    let mut root: Node<&'static str> = Node::new();
    root.try_extend("/static".into(), sub()).unwrap();
    assert_eq!(named(&root, "/static/2"), pairs(&[("y", "2")]));
    assert_eq!(named(&root, "/static/a/2/c"), pairs(&[("z", "2")]));
    assert_eq!(named(&root, "/static/a"), pairs(&[]));

    let mut outer: Node<&'static str> = Node::new();
    let mut middle: Node<&'static str> = Node::new();
    middle.try_extend("/m/:b".into(), sub()).unwrap();
    outer.try_extend("/o/:a".into(), middle).unwrap();
    assert_eq!(named(&outer, "/o/1/m/2/3"), pairs(&[("a", "1"), ("b", "2"), ("y", "3")]));
}

#[test]
fn implied_head_of_a_mounted_root_can_be_replaced() {
    let mut get = config(Method::GET, "/", "get");
    get.head_can_use_get = true;
    let mut sub: Node<&str> = Node::new();
    sub.try_insert(get).unwrap();
    let mut root: Node<&str> = Node::new();
    root.try_insert(config(Method::HEAD, "/a", "old head")).unwrap();
    root.try_extend("/a".into(), sub).unwrap();
    assert_eq!(value(&root, &Method::HEAD, "/a"), Some("get"));
    root.try_insert(config(Method::HEAD, "/a", "head")).unwrap();
    assert_eq!(value(&root, &Method::HEAD, "/a"), Some("head"));

    let mut sub: Node<&str> = Node::new();
    sub.try_insert(config(Method::HEAD, "/", "explicit")).unwrap();
    let mut root: Node<&str> = Node::new();
    root.try_extend("/a".into(), sub).unwrap();
    assert!(root.try_insert(config(Method::HEAD, "/a", "head")).is_err());
}
