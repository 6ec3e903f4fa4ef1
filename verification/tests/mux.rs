use std::sync::atomic::{AtomicU64, Ordering};
use std::sync::Arc;

use percent_encoding::percent_encode;
use treemux::builder::{check_path, check_scope};
use treemux::layered::LayeredBuilder;
use treemux::middleware::Chain;
use treemux::{
    Action, Builder, Method, Middleware, Params, RedirectBehavior, RouteError, RouterBuilder,
    Treemux,
};

/// What a handler is called with.
struct Call {
    params: Params,
    allowed: String,
}

/// What a handler gives back.
#[derive(Debug, Clone, PartialEq)]
struct Reply {
    status: u16,
    header: String,
    body: String,
}

type TestHandler = Arc<dyn Fn(&Call) -> Reply + Send + Sync>;

fn reply(status: u16, header: &str, body: &str) -> Reply {
    Reply { status, header: header.to_string(), body: body.to_string() }
}

fn answering(status: u16, header: &'static str, body: &'static str) -> TestHandler {
    Arc::new(move |_call: &Call| reply(status, header, body))
}

fn empty_ok_response() -> TestHandler {
    answering(200, "", "")
}

fn param_handler(name: &'static str) -> TestHandler {
    Arc::new(move |call: &Call| reply(200, "", call.params.get(name).unwrap_or_default()))
}

fn make_handler(method: &'static str) -> TestHandler {
    answering(200, method, "")
}

/// Answers a request as the action says; the header is the location or the allowed methods.
fn serve(mux: &Treemux<TestHandler>, method: &Method, uri: &str) -> Reply {
    let uri: hyper::Uri = uri.parse().unwrap();
    let path = uri.path();
    let clean_path = mux.lookup_path(path).to_string();
    let mut call = Call { params: Params::default(), allowed: String::new() };
    match mux.respond(method, path, uri.query(), &clean_path) {
        Action::Call { handler, parameters } => {
            call.params = parameters;
            handler(&call)
        }
        Action::GlobalOptions { handler } => handler(&call),
        Action::MethodNotAllowed { handler, allowed } => {
            let mut names: Vec<String> =
                allowed.header_value().split(", ").map(|v| v.to_string()).collect();
            names.sort();
            call.allowed = names.join(", ");
            match handler {
                Some(handler) => handler(&call),
                None => reply(405, &call.allowed, ""),
            }
        }
        Action::NotFound { handler } => match handler {
            Some(handler) => handler(&call),
            None => reply(404, "", ""),
        },
        Action::Redirect { status, location } => reply(status, &location, ""),
    }
}

fn get(mux: &Treemux<TestHandler>, uri: &str) -> Reply {
    serve(mux, &Method::GET, uri)
}

fn builder() -> Builder<TestHandler> {
    Treemux::builder()
}

/// Registers a handler, or panics with the reason why the path cannot start a route.
fn get_or_panic(mut b: Builder<TestHandler>, path: &str) {
    check_path(path).unwrap();
    b.get(path, empty_ok_response()).unwrap();
}

#[test]
#[should_panic]
fn empty_router_mapping() {
    get_or_panic(builder(), "");
}

#[test]
#[should_panic]
fn test_empty_router_mapping() {
    get_or_panic(Builder::default(), "");
}

fn check_scope_slash_mapping() {
    let mut b = builder();
    b.scope("/foo").get("/", empty_ok_response()).unwrap();
    let router = b.build();
    assert_eq!(get(&router, "/foo").status, 301);
    assert_eq!(get(&router, "/foo/").status, 200);
}

#[test]
fn scope_slash_mapping() {
    check_scope_slash_mapping();
}

#[test]
fn test_scope_slash_mapping() {
    check_scope_slash_mapping();
}

fn check_empty_scope_mapping() {
    let mut b = builder();
    b.scope("/foo").get("", empty_ok_response()).unwrap();
    let router = b.build();
    assert_eq!(get(&router, "/foo").status, 200);
}

#[test]
fn empty_scope_mapping() {
    check_empty_scope_mapping();
}

#[test]
fn test_empty_scope_mapping() {
    check_empty_scope_mapping();
}

fn group_methods(head_can_use_get: bool) {
    let make_router = || {
        let mut router = builder();
        router.head_can_use_get = head_can_use_get;
        let b = router.scope("/base");
        let mut g = b.scope("/user");
        g.get("/:param", make_handler("GET")).unwrap();
        g.post("/:param", make_handler("POST")).unwrap();
        g.patch("/:param", make_handler("PATCH")).unwrap();
        g.put("/:param", make_handler("PUT")).unwrap();
        g.delete("/:param", make_handler("DELETE")).unwrap();
        router
    };
    let test_method = |router: &Treemux<TestHandler>, method: Method, expect: Option<&str>| {
        let resp = serve(router, &method, &format!("/base/user/{}", method.as_str()));
        match expect {
            Some(expect) => assert_eq!(resp.header, expect),
            None => assert_eq!(resp.status, 405),
        }
    };

    let router = make_router().build();
    test_method(&router, Method::GET, Some("GET"));
    test_method(&router, Method::POST, Some("POST"));
    test_method(&router, Method::PATCH, Some("PATCH"));
    test_method(&router, Method::PUT, Some("PUT"));
    test_method(&router, Method::DELETE, Some("DELETE"));
    if head_can_use_get {
        test_method(&router, Method::HEAD, Some("GET"));
    } else {
        test_method(&router, Method::HEAD, None);
    }

    let mut router = make_router();
    router.head("/base/user/:param", make_handler("HEAD")).unwrap();
    test_method(&router.build(), Method::HEAD, Some("HEAD"));
}

#[test]
fn group_method_scenarios() {
    group_methods(false);
    group_methods(true);
}

#[test]
fn test_group_method_scenarios() {
    group_methods(false);
    group_methods(true);
}

/// Opens one group in another, or panics with the reason why a prefix is refused.
fn scope_or_panic(prefixes: &[&str]) {
    let mut b = builder();
    let (first, rest) = prefixes.split_first().unwrap();
    check_scope(first).unwrap();
    let mut g = b.scope(first);
    for prefix in rest {
        check_scope(prefix).unwrap();
        g = g.scope(prefix);
    }
}

#[test]
#[should_panic]
fn invalid_path() {
    scope_or_panic(&["foo"]);
}

#[test]
#[should_panic]
fn test_invalid_path() {
    scope_or_panic(&["foo"]);
}

#[test]
#[should_panic]
fn invalid_sub_path() {
    scope_or_panic(&["/foo", "bar"]);
}

#[test]
#[should_panic]
fn test_invalid_sub_path() {
    scope_or_panic(&["/foo", "bar"]);
}

#[test]
fn valid_paths_are_no_panic() {
    get_or_panic(builder(), "/");
    scope_or_panic(&["/foo", "/bar/", "/"]);
}

fn check_set_get_after_head() {
    let mut router = builder();
    router.head_can_use_get = true;
    router.head("/abc", make_handler("HEAD")).unwrap();
    router.get("/abc", make_handler("GET")).unwrap();
    let mux = router.build();
    assert_eq!(serve(&mux, &Method::HEAD, "/abc").header, "HEAD");
    assert_eq!(serve(&mux, &Method::GET, "/abc").header, "GET");
}

#[test]
fn set_get_after_head() {
    check_set_get_after_head();
}

#[test]
fn test_set_get_after_head() {
    check_set_get_after_head();
}

fn check_not_found() {
    let mut router = builder();
    router.get("/user/abc", empty_ok_response()).unwrap();
    let mux = router.build();
    assert_eq!(get(&mux, "/abc/").status, 404);

    let mut router = builder();
    router.get("/user/abc", empty_ok_response()).unwrap();
    router.not_found(answering(404, "", "custom not found"));
    let mux = router.build();
    let response = get(&mux, "/abc/");
    assert_eq!(response.status, 404);
    assert_eq!(response.body, "custom not found");
}

#[test]
fn not_found() {
    check_not_found();
}

#[test]
fn router_test_not_found() {
    check_not_found();
}

#[test]
fn mux_test_not_found() {
    let mut mux = builder();
    mux.not_found(answering(404, "", ""));
    mux.add_route(Method::GET, "/hello", answering(200, "", "/hello")).unwrap();
    let mux = mux.build();

    let resp = get(&mux, "/hello");
    assert_eq!(resp.status, 200);
    assert_eq!(resp.body, "/hello");

    assert_eq!(get(&mux, "/baba").status, 404);
}

fn user_router() -> Builder<TestHandler> {
    let mut router = builder();
    router.get("/user/abc", empty_ok_response()).unwrap();
    router.put("/user/abc", empty_ok_response()).unwrap();
    router.delete("/user/abc", empty_ok_response()).unwrap();
    router
}

fn check_method_not_allowed_handler() {
    let mux = user_router().build();
    let response = serve(&mux, &Method::POST, "/user/abc");
    assert_eq!(response.status, 405);
    assert_eq!(response.header, "DELETE, GET, HEAD, PUT");

    let mut router = user_router();
    router.method_not_allowed(Arc::new(|call: &Call| {
        reply(405, &call.allowed, "custom method not allowed")
    }));
    let mux = router.build();
    let response = serve(&mux, &Method::POST, "/user/abc");
    assert_eq!(response.status, 405);
    assert_eq!(response.header, "DELETE, GET, HEAD, PUT");
    assert_eq!(response.body, "custom method not allowed");
}

#[test]
fn method_not_allowed_handler() {
    check_method_not_allowed_handler();
}

#[test]
fn test_method_not_allowed_handler() {
    check_method_not_allowed_handler();
}

fn check_handle_options() {
    let make_router = || {
        let mut router = user_router();
        router.options("/user/abc/options", answering(401, "treemux.rs", "")).unwrap();
        router
    };

    let mux = make_router().build();
    assert_eq!(serve(&mux, &Method::OPTIONS, "/user/abc").status, 405);

    let mut b = make_router();
    b.global_options(answering(204, "*", ""));
    let mux = b.build();
    let res = serve(&mux, &Method::OPTIONS, "/user/abc");
    assert_eq!(res.status, 204);
    assert_eq!(res.header, "*");

    let res = serve(&mux, &Method::OPTIONS, "/user/abc/options");
    assert_eq!(res.status, 401);
    assert_eq!(res.header, "treemux.rs");

    let mux = make_router().build();
    let res = serve(&mux, &Method::OPTIONS, "/user/abc/options");
    assert_eq!(res.status, 401);
    assert_eq!(res.header, "treemux.rs");

    let mut b = make_router();
    b.global_options(answering(204, "*", ""));
    let mux = b.build();
    let res = serve(&mux, &Method::POST, "/user/abc");
    assert_eq!(res.status, 405);
    assert_eq!(res.header, "DELETE, GET, HEAD, PUT");
}

#[test]
fn handle_options() {
    check_handle_options();
}

#[test]
fn test_handle_options() {
    check_handle_options();
}

fn expected_status(behavior: RedirectBehavior) -> u16 {
    match behavior {
        RedirectBehavior::Redirect301 => 301,
        RedirectBehavior::Redirect307 => 307,
        RedirectBehavior::Redirect308 => 308,
        RedirectBehavior::UseHandler => 204,
    }
}

fn redirect(
    default_behavior: RedirectBehavior,
    get_behavior: RedirectBehavior,
    post_behavior: RedirectBehavior,
    custom_methods: bool,
) {
    let redirect_handler = || answering(204, "", "");
    let default_code = expected_status(default_behavior);
    let mut expected = vec![(Method::PUT, default_code)];

    let mut router = builder();
    router.redirect_behavior = Some(default_behavior);
    if custom_methods {
        router.redirect_method_behavior.insert(Method::GET, Arc::new(get_behavior));
        router.redirect_method_behavior.insert(Method::POST, Arc::new(post_behavior));
        expected.push((Method::GET, expected_status(get_behavior)));
        expected.push((Method::POST, expected_status(post_behavior)));
    } else {
        expected.push((Method::GET, default_code));
        expected.push((Method::POST, default_code));
    }

    router.get("/slash/", redirect_handler()).unwrap();
    router.get("/noslash", redirect_handler()).unwrap();
    router.post("/slash/", redirect_handler()).unwrap();
    router.post("/noslash", redirect_handler()).unwrap();
    router.put("/slash/", redirect_handler()).unwrap();
    router.put("/noslash", redirect_handler()).unwrap();
    let mux = router.build();

    for (method, expected_code) in &expected {
        let sent = |uri: &str, location: &str| {
            let res = serve(&mux, method, uri);
            assert_eq!(res.status, *expected_code, "{:?} {}", method, uri);
            if *expected_code != 204 {
                assert_eq!(res.header, location);
            }
        };
        let called = |uri: &str| assert_eq!(serve(&mux, method, uri).status, 204);

        sent("/slash", "/slash/");
        sent("/noslash/", "/noslash");
        called("/noslash");
        called("/noslash?a=1&b=2");
        called("/slash/");
        called("/slash/?a=1&b=2");
        sent("/slash?a=1&b=2", "/slash/?a=1&b=2");
        sent("/noslash/?a=1&b=2", "/noslash?a=1&b=2");
    }
}

#[test]
fn redirects() {
    redirect(RedirectBehavior::Redirect301, RedirectBehavior::Redirect301, RedirectBehavior::Redirect301, false);
    redirect(RedirectBehavior::UseHandler, RedirectBehavior::UseHandler, RedirectBehavior::UseHandler, false);
    redirect(RedirectBehavior::Redirect301, RedirectBehavior::Redirect307, RedirectBehavior::UseHandler, true);
    redirect(RedirectBehavior::UseHandler, RedirectBehavior::Redirect301, RedirectBehavior::Redirect308, true);
}

#[test]
fn skip_redirect() {
    let mut router = builder();
    router.redirect_trailing_slash = false;
    router.redirect_clean_path = false;
    router.get("/slash/", empty_ok_response()).unwrap();
    router.get("/noslash", empty_ok_response()).unwrap();
    let mux = router.build();
    assert_eq!(get(&mux, "/slash").status, 404);
    assert_eq!(get(&mux, "/noslash/").status, 404);
}

#[test]
fn catch_all_trailing_slash() {
    for redirect_trailing_slash in [false, true] {
        for remove_catch_all_slash in [false, true] {
            let mut router = builder();
            router.remove_catch_all_trailing_slash = remove_catch_all_slash;
            router.redirect_trailing_slash = redirect_trailing_slash;
            router.get("/abc/*path", empty_ok_response()).unwrap();
            let mux = router.build();
            for pth in ["apples", "apples/", "apples/bananas", "apples/bananas/"] {
                let resp = get(&mux, &format!("/abc/{}", pth));
                let moved =
                    pth.ends_with('/') && redirect_trailing_slash && remove_catch_all_slash;
                assert_eq!(resp.status, if moved { 301 } else { 200 });
            }
        }
    }
}

#[test]
fn root() {
    let mut router = builder();
    router.get("/", answering(204, "", "")).unwrap();
    let mux = router.build();
    assert_eq!(get(&mux, "/").status, 204);
}

#[test]
fn wildcard_at_split_node() {
    let mut router = builder();
    router.get("/pumpkin", param_handler("slug")).unwrap();
    router.get("/passing", param_handler("slug")).unwrap();
    router.get("/:slug", param_handler("slug")).unwrap();
    router.get("/:slug/abc", param_handler("slug")).unwrap();
    let mux = router.build();

    let resp = get(&mux, "/patch");
    assert_eq!(resp.status, 200);
    assert_eq!(resp.body, "patch");

    let resp = get(&mux, "/patch/abc");
    assert_eq!(resp.status, 200);
    assert_eq!(resp.body, "patch");

    assert_eq!(get(&mux, "/patch/def").status, 404);
}

#[test]
fn slash() {
    let mut router = builder();
    router.get("/abc/:param", param_handler("param")).unwrap();
    router
        .get(
            "/year/:year/month/:month",
            Arc::new(|call: &Call| {
                let year = call.params.get("year").unwrap_or_default();
                let month = call.params.get("month").unwrap_or_default();
                reply(200, "", &format!("{} {}", year, month))
            }),
        )
        .unwrap();
    let mux = router.build();

    let resp = get(&mux, "/abc/de%2ff");
    assert_eq!(resp.status, 200);
    assert_eq!(resp.body, "de/f");

    let resp = get(&mux, "/year/de%2f/month/fg%2f");
    assert_eq!(resp.status, 200);
    assert_eq!(resp.body, "de/ fg/");
}

#[test]
fn query_string() {
    let mut router = builder();
    router.get("/static", param_handler("param")).unwrap();
    router.get("/wildcard/:param", param_handler("param")).unwrap();
    router.get("/catchall/*param", param_handler("param")).unwrap();
    let mux = router.build();

    let resp = get(&mux, "/static?abc=def&ghi=jkl");
    assert_eq!(resp.status, 200);
    assert_eq!(resp.body, "");

    let resp = get(&mux, "/wildcard/aaa?abc=def");
    assert_eq!(resp.status, 200);
    assert_eq!(resp.body, "aaa");

    let resp = get(&mux, "/catchall/bbb?abc=def");
    assert_eq!(resp.status, 200);
    assert_eq!(resp.body, "bbb");
}

const PATH_ENCODING: &percent_encoding::AsciiSet = &percent_encoding::CONTROLS
    .add(b' ')
    .add(b'!')
    .add(b'"')
    .add(b'#')
    .add(b'$')
    .add(b'%')
    .add(b'&')
    .add(b'\'')
    .add(b'(')
    .add(b')')
    .add(b'*')
    .add(b'+')
    .add(b',')
    .add(b'-')
    .add(b'.')
    .add(b'/')
    .add(b':')
    .add(b';')
    .add(b'<')
    .add(b'=')
    .add(b'>')
    .add(b'?')
    .add(b'[')
    .add(b'\\')
    .add(b']')
    .add(b'^')
    .add(b'_')
    .add(b'`')
    .add(b'{')
    .add(b'|')
    .add(b'}')
    .add(b'~');

#[test]
fn redirect_escaped_path() {
    let mut router = builder();
    router.get("/:escaped/", empty_ok_response()).unwrap();
    let mux = router.build();

    let uri = format!("/{}", percent_encode("Test P@th".as_bytes(), PATH_ENCODING));
    let resp = get(&mux, &uri);
    assert_eq!(resp.status, 301);
    assert_eq!(resp.header, "/Test%20P@th/");
}

#[test]
fn escaped_routes() {
    let test_cases = vec![
        ("/abc/def", "/abc/def", "", ""),
        ("/abc/*star", "/abc/defg", "star", "defg"),
        ("/abc/extrapath/*star", "/abc/extrapath/*lll", "star", "*lll"),
        ("/abc/\\*def", "/abc/*def", "", ""),
        ("/abc/\\\\*def", "/abc/\\*def", "", ""),
        ("/:wild/def", "/*abcd/def", "wild", "*abcd"),
        ("/\\:wild/def", "/:wild/def", "", ""),
        ("/\\\\:wild/def", "/\\:wild/def", "", ""),
        ("/\\*abc/def", "/*abc/def", "", ""),
    ];
    for escape in [false, true] {
        let mut router = builder();
        router.escape_added_routes = escape;
        for (route, _, _, _) in &test_cases {
            router
                .get(
                    route,
                    Arc::new(|call: &Call| match call.params.first() {
                        Some(param) => reply(200, "", &format!("{}={}", param.key, param.value)),
                        None => reply(200, "", ""),
                    }),
                )
                .unwrap();
        }
        let mux = router.build();
        for (_, path, param, param_value) in &test_cases {
            let uri = hyper::Uri::builder().path_and_query(*path).build().unwrap();
            let escaped_path = uri.path().to_string();
            let resp = get(&mux, path);
            assert_eq!(resp.status, 200);
            if !param.is_empty() {
                assert_eq!(resp.body, format!("{}={}", param, param_value));
            } else {
                assert_eq!(resp.body, "");
            }
            if escaped_path != *path {
                let resp = get(&mux, &escaped_path);
                if escape {
                    assert_eq!(resp.status, 200);
                    assert_eq!(resp.body, format!("{}={}", param, param_value));
                } else {
                    assert_eq!(resp.status, 404);
                    assert!(resp.body.is_empty());
                }
            }
        }
    }
}

/// A middleware that counts the calls of what it wraps, and writes down its name.
struct Counting {
    counter: Arc<AtomicU64>,
    name: &'static str,
}

impl Middleware for Counting {
    type Input = TestHandler;
    type Output = TestHandler;

    fn chain(&self, next: TestHandler) -> TestHandler {
        let counter = self.counter.clone();
        let name = self.name;
        Arc::new(move |call: &Call| {
            counter.fetch_add(1, Ordering::SeqCst);
            let mut answer = next(call);
            answer.header = format!("{}({})", name, answer.header);
            answer
        })
    }
}

#[test]
fn test_middlewares() {
    let counter = Arc::new(AtomicU64::new(0));
    let mut mux = LayeredBuilder::new(builder());
    mux.not_found(answering(404, "", ""));

    let mut mux = mux.middleware(Counting { counter: counter.clone(), name: "first" });
    let inner = counter.clone();
    let second: TestHandler = Arc::new(move |_call: &Call| {
        inner.fetch_add(1, Ordering::SeqCst);
        reply(200, "", "/second")
    });
    mux.handle(Method::GET, "/second", second).unwrap();
    let mux = mux.builder.build();

    let resp = get(&mux, "/second");
    assert_eq!(resp.status, 200);
    assert_eq!(resp.body, "/second");
    assert_eq!(counter.load(Ordering::SeqCst), 2);

    let resp = get(&mux, "/second");
    assert_eq!(resp.status, 200);
    assert_eq!(resp.body, "/second");
    assert_eq!(counter.load(Ordering::SeqCst), 4);
}

#[test]
fn first_middleware_is_outermost() {
    let counter = Arc::new(AtomicU64::new(0));
    let mut chain = Chain::new();
    chain.middleware(Counting { counter: counter.clone(), name: "first" });
    chain.middleware(Counting { counter: counter.clone(), name: "second" });
    let wrapped = chain.wrap(answering(200, "handler", ""));
    let call = Call { params: Params::default(), allowed: String::new() };
    assert_eq!(wrapped(&call).header, "first(second(handler))");
    assert_eq!(counter.load(Ordering::SeqCst), 2);
}

#[test]
fn middleware_leaves_what_was_there_alone() {
    let counter = Arc::new(AtomicU64::new(0));
    let link = |name| Counting { counter: counter.clone(), name };
    let mut b: Builder<TestHandler> = Treemux::builder();
    b.head_can_use_get = false;
    let mut layered = LayeredBuilder::new(b);
    layered.handle(Method::GET, "/before", make_handler("before")).unwrap();
    layered.not_found(answering(404, "missing", ""));
    let mut layered = layered.middleware(link("first")).middleware(link("second"));
    layered.handle(Method::GET, "/after", make_handler("after")).unwrap();
    layered.method_not_allowed(answering(405, "denied", ""));
    layered.global_options(answering(204, "options", ""));
    assert_eq!(
        layered.handle(Method::GET, "/after", make_handler("x")),
        Err(RouteError::AlreadyHandled)
    );
    assert!(!layered.builder.head_can_use_get);
    let mux = layered.builder.build();
    assert_eq!(get(&mux, "/before").header, "before");
    assert_eq!(get(&mux, "/nowhere").header, "missing");
    assert_eq!(get(&mux, "/after").header, "first(second(after))");
    assert_eq!(serve(&mux, &Method::POST, "/after").header, "first(second(denied))");
    assert_eq!(serve(&mux, &Method::OPTIONS, "/after").header, "first(second(options))");
}

#[test]
fn group_middleware_is_inside_of_the_routers() {
    let counter = Arc::new(AtomicU64::new(0));
    let link = |name| Counting { counter: counter.clone(), name };
    let mut layered = LayeredBuilder::new(builder()).middleware(link("router"));
    {
        let mut group = layered.scope("/api/");
        group.handle(Method::GET, "/plain", make_handler("plain")).unwrap();
        let group = group.middleware(link("first")).middleware(link("second"));
        let mut group = group.scope("/v1");
        assert_eq!(group.prefix, "/api/v1");
        group.handle(Method::GET, "/x", make_handler("x")).unwrap();
        let mut sub = builder();
        sub.get("/deep", make_handler("deep")).unwrap();
        group.extend("/more", sub.build()).unwrap();
        assert_eq!(
            group.handle(Method::GET, "/x", make_handler("y")),
            Err(RouteError::AlreadyHandled)
        );
    }
    layered.handle(Method::GET, "/own", make_handler("own")).unwrap();
    let mux = layered.builder.build();
    assert_eq!(get(&mux, "/api/plain").header, "router(plain)");
    assert_eq!(get(&mux, "/api/v1/x").header, "router(first(second(x)))");
    assert_eq!(get(&mux, "/api/v1/more/deep").header, "deep");
    assert_eq!(get(&mux, "/own").header, "router(own)");
}

#[test]
fn test_builder() {
    let mut b = Builder::default();
    let hello_world = || answering(200, "", "Hello, World!");
    let hello_again_world = || answering(200, "", "Hello again, World!");
    let nested_world = || answering(200, "", "Nested World!");
    b.get("/hello", hello_world()).unwrap();
    b.get("/other", hello_again_world()).unwrap();

    let mut grp = Builder::default();
    grp.get("/hello", hello_world()).unwrap();
    grp.post("/hello", hello_world()).unwrap();
    grp.get("/other", hello_again_world()).unwrap();
    b.extend("/api/:user/:thing", grp.into()).unwrap();

    let mut scp = b.scope("/apps/:appid/user");
    scp.get("/hello", nested_world()).unwrap();
    scp.post("/hello", nested_world()).unwrap();

    let tm: Treemux<TestHandler> = b.into();
    assert_eq!(get(&tm, "/hello").body, "Hello, World!");
    assert_eq!(get(&tm, "/other").body, "Hello again, World!");
    assert_eq!(get(&tm, "/apps/kohana/user/hello").body, "Nested World!");
    assert_eq!(get(&tm, "/api/me/it/hello").body, "Hello, World!");
    assert_eq!(serve(&tm, &Method::POST, "/api/me/it/hello").body, "Hello, World!");
    assert_eq!(get(&tm, "/api/me/it/other").body, "Hello again, World!");
}

#[test]
fn lookup_gives_the_handler_or_false() {
    let mut router: Builder<&str> = Treemux::builder();
    router.get("/home", "Welcome!").unwrap();
    router.post("/user/:id", "user").unwrap();
    let router = router.build();
    let (handler, params) = router.lookup(&Method::GET, "/home").unwrap();
    assert_eq!(*handler, "Welcome!");
    assert!(params.is_empty());
    let (handler, params) = router.lookup(&Method::POST, "/user/a%20b").unwrap();
    assert_eq!(*handler, "user");
    assert_eq!(params.get("id"), Some("a b"));
    assert_eq!(router.lookup(&Method::GET, "/nowhere").map(|_| ()), Err(false));
    assert_eq!(router.lookup(&Method::GET, "/user/1").map(|_| ()), Err(false));
}

#[test]
fn trailing_slash_mark_is_kept_for_all_methods() {
    let mut router = builder();
    router.get("/about", answering(200, "", "about")).unwrap();
    router.get("/posts/", answering(200, "", "index")).unwrap();
    router.post("/posts", answering(200, "", "form")).unwrap();
    let mux = router.build();
    assert_eq!(get(&mux, "/about").body, "about");
    assert_eq!(get(&mux, "/about/"), reply(301, "/about", ""));
    assert_eq!(get(&mux, "/posts"), reply(301, "/posts/", ""));
    assert_eq!(get(&mux, "/posts/").body, "index");
    assert_eq!(serve(&mux, &Method::POST, "/posts"), reply(301, "/posts/", ""));
    assert_eq!(serve(&mux, &Method::POST, "/posts/").body, "form");
}

#[test]
fn clean_path_is_tried_where_nothing_is_found() {
    let mut router: Builder<&str> = Treemux::builder();
    router.get("/a/b", "ab").unwrap();
    let mux = router.build();
    match mux.respond(&Method::GET, "/a//b", Some("x=1"), "/a/b") {
        Action::Redirect { status, location } => {
            assert_eq!(status, 301);
            assert_eq!(location, "/a/b?x=1");
        }
        other => panic!("{:?}", other),
    }
    assert!(matches!(
        mux.respond(&Method::GET, "/a//c", None, "/a/c"),
        Action::NotFound { handler: None }
    ));

    let mut router: Builder<&str> = Treemux::builder();
    router.redirect_behavior = Some(RedirectBehavior::UseHandler);
    router.get("/a/b", "ab").unwrap();
    let mux = router.build();
    assert!(matches!(
        mux.respond(&Method::GET, "/a//b", None, "/a/b"),
        Action::Call { handler: &"ab", .. }
    ));

    let mut router: Builder<&str> = Treemux::builder();
    router.redirect_clean_path = false;
    router.get("/a/b", "ab").unwrap();
    let mux = router.build();
    assert!(matches!(
        mux.respond(&Method::GET, "/a//b", None, "/a/b"),
        Action::NotFound { handler: None }
    ));
}

#[test]
fn builder_says_why_it_refuses() {
    let mut router: Builder<&str> = Treemux::builder();
    assert_eq!(router.add_route(Method::GET, "", "x"), Err(RouteError::EmptyPath));
    router.get("/abc", "x").unwrap();
    assert_eq!(router.get("/abc", "y"), Err(RouteError::AlreadyHandled));
    assert_eq!(router.extend("/*x", Treemux::default()), Err(RouteError::CatchAllGroup));
    router.escape_added_routes = true;
    assert_eq!(router.get("/a b", "x"), Err(RouteError::InvalidUri));
}

#[test]
fn escaped_pattern_is_added_besides_the_pattern() {
    let mut router: Builder<&str> = Treemux::builder();
    router.escape_added_routes = true;
    router.get("/find?now", "x").unwrap();
    router.get("/plain", "y").unwrap();
    let mux = router.build();
    assert_eq!(*mux.lookup(&Method::GET, "/find?now").unwrap().0, "x");
    assert_eq!(*mux.lookup(&Method::GET, "/find").unwrap().0, "x");
    assert_eq!(*mux.lookup(&Method::GET, "/plain").unwrap().0, "y");
}

#[test]
fn group_of_a_group_joins_prefixes() {
    let mut router: Builder<&str> = Treemux::builder();
    {
        let group = router.scope("/api/");
        assert_eq!(group.prefix, "/api");
        let mut group = group.scope("/v1/");
        assert_eq!(group.prefix, "/api/v1");
        group.get("/foo", "foo").unwrap();
        group.head("/foo", "head").unwrap();
        group.options("/foo", "options").unwrap();
        let mut sub: Builder<&str> = Treemux::builder();
        sub.get("/deep", "deep").unwrap();
        group.extend("/more", sub.build()).unwrap();
    }
    let mux = router.build();
    assert_eq!(*mux.lookup(&Method::GET, "/api/v1/foo").unwrap().0, "foo");
    assert_eq!(*mux.lookup(&Method::HEAD, "/api/v1/foo").unwrap().0, "head");
    assert_eq!(*mux.lookup(&Method::OPTIONS, "/api/v1/foo").unwrap().0, "options");
    assert_eq!(*mux.lookup(&Method::GET, "/api/v1/more/deep").unwrap().0, "deep");
}
