use std::borrow::Cow;
use std::sync::Arc;

use treemux::builder::{check_path, check_scope};
use treemux::decode::decode_all;
use treemux::dump::{write_decimal, write_two_digits};
use treemux::exact::ExactRoutes;
use treemux::method::join_names;
use treemux::middleware::{log_level, LogLevel};
use treemux::mux::{
    has_trailing_slash, redirect_content_type, redirect_location, redirect_status,
};
use treemux::params::zip_params;
use treemux::text::{
    copy_list, count_common, count_segment, join, same_list, same_text, skip_chars,
    strip_end_slash, strip_start_slash, take_chars,
};
use treemux::{
    AllowedMethods, Handler, HandlerConfig, Method, MethodMap, Node, Param, Params,
    RedirectBehavior, RouteError,
};

fn strings(list: &[&str]) -> Vec<String> {
    list.iter().map(|s| s.to_string()).collect()
}

fn insert(node: &mut Node<&'static str>, method: Method, path: &str, value: &'static str) {
    node.try_insert(HandlerConfig::new(method, Cow::Owned(path.to_string()), value)).unwrap();
}

#[test]
fn text_is_counted_in_characters() {
    assert!(same_text("größe", "größe"));
    assert!(!same_text("größe", "grösse"));
    assert_eq!(skip_chars("größe/x", 5), "/x");
    assert_eq!(take_chars("größe/x", 5), "größe");
    assert_eq!(count_segment("größe/x"), 5);
    assert_eq!(count_segment("/x"), 0);
    assert_eq!(count_common("größe", "größer"), 5);
    assert_eq!(count_common("abc", "xbc"), 0);
    assert_eq!(join("a", "b"), "ab");
}

#[test]
fn one_slash_is_stripped() {
    assert_eq!(strip_start_slash("//a/"), "/a/");
    assert_eq!(strip_start_slash("a"), "a");
    assert_eq!(strip_start_slash(""), "");
    assert_eq!(strip_end_slash("/a//"), "/a/");
    assert_eq!(strip_end_slash("/"), "");
    assert_eq!(strip_end_slash("a"), "a");
}

#[test]
fn lists_are_copied_and_compared() {
    let list = strings(&["a", "b"]);
    assert_eq!(copy_list(&list), list);
    assert!(same_list(&list, &strings(&["a", "b"])));
    assert!(!same_list(&list, &strings(&["a"])));
    assert!(!same_list(&list, &strings(&["a", "c"])));
}

#[test]
fn percent_signs_are_decoded() {
    assert_eq!(
        decode_all(&strings(&["a%2fb", "%CF%80", "plain", "100%", "%FF"])),
        strings(&["a/b", "π", "plain", "100%", "\u{FFFD}"])
    );
}

#[test]
fn methods_are_told_apart_by_name() {
    for name in ["OPTIONS", "GET", "POST", "PUT", "DELETE", "HEAD", "TRACE", "CONNECT", "PATCH", "PURGE"]
    {
        let method = Method::from_name(name);
        assert_eq!(method.as_str(), name);
        assert!(method.same(&Method::Extension(name.to_string())));
        assert_eq!(method.clone().as_str(), name);
    }
    assert!(!Method::GET.same(&Method::HEAD));
}

#[test]
fn method_map_gives_back_what_was_set() {
    let mut map: MethodMap<u32> = MethodMap::new();
    assert!(map.is_empty());
    map.insert(Method::GET, Arc::new(1));
    map.insert(Method::PUT, Arc::new(2));
    map.insert(Method::GET, Arc::new(3));
    assert_eq!(map.len(), 2);
    assert_eq!(map.get(&Method::GET), Some(&3));
    assert_eq!(map.get(&Method::PUT), Some(&2));
    assert_eq!(map.get(&Method::POST), None);
    assert!(map.contains_key(&Method::PUT));
    assert!(!map.contains_key(&Method::POST));
    assert_eq!(join_names(&map.keys(), "|"), "GET|PUT");

    let mut more: MethodMap<u32> = MethodMap::new();
    more.insert(Method::PUT, Arc::new(20));
    more.insert(Method::POST, Arc::new(30));
    map.merge(&more);
    assert_eq!(map.get(&Method::GET), Some(&3));
    assert_eq!(map.get(&Method::PUT), Some(&20));
    assert_eq!(map.get(&Method::POST), Some(&30));
}

#[test]
fn allowed_methods_are_listed() {
    let allowed = AllowedMethods(vec![Method::GET, Method::HEAD, Method::from_name("PURGE")]);
    assert_eq!(allowed.methods().len(), 3);
    assert_eq!(allowed.header_value(), "GET, HEAD, PURGE");
    assert_eq!(AllowedMethods(vec![]).header_value(), "");
}

#[test]
fn params_are_found_by_name_and_position() {
    let mut params = Params::default();
    assert!(params.is_empty());
    assert_eq!(params.first(), None);
    params.push(("user", "me"));
    params.push((Cow::Borrowed("page"), Cow::Borrowed("2")));
    params.push(Param::new("user".to_string(), "you".to_string()));
    let pair = (Cow::Borrowed("last"), Cow::Borrowed("one"));
    params.push((&pair.0, &pair.1));
    assert_eq!(params.len(), 4);
    assert_eq!(params.get("user"), Some("me"));
    assert_eq!(params.get("page"), Some("2"));
    assert_eq!(params.get("last"), Some("one"));
    assert_eq!(params.get("nobody"), None);
    assert_eq!(params.first().unwrap().key, "user");
    assert_eq!(params[2].value, "you");
    params.index_mut(2).value = "they".to_string();
    assert_eq!(params[2].value, "they");
    assert_eq!(params[0].value, "me");
}

#[test]
fn params_are_made_of_pairs() {
    let params = Params::from_iter(vec![("a", "1"), ("b", "2")]);
    assert_eq!(params, Params(vec![("a", "1").into(), ("b", "2").into()]));
    assert_eq!(zip_params(&strings(&["a", "b", "c"]), &strings(&["1", "2"])), params);
    assert_eq!(zip_params(&strings(&["a", "b"]), &strings(&["1", "2", "3"])), params);
}

#[test]
fn numbers_are_written_in_digits() {
    assert_eq!(write_decimal(0), "0");
    assert_eq!(write_decimal(7), "7");
    assert_eq!(write_decimal(1234567890), "1234567890");
    assert_eq!(write_two_digits(7), "07");
    assert_eq!(write_two_digits(10), "10");
    assert_eq!(write_two_digits(345), "345");
}

#[test]
fn tree_is_dumped_line_by_line() {
    let mut root = Node::new();
    insert(&mut root, Method::GET, "/apps", "apps");
    insert(&mut root, Method::POST, "/apps", "apps");
    insert(&mut root, Method::GET, "/app/:id", "app");
    insert(&mut root, Method::GET, "/app/:id/*rest", "rest");
    let expected = [
        "> 04 @/ [1]  wildcards None",
        ">   04 app [2]  wildcards None",
        ">     02 / [0]  wildcards None",
        ">       01 :id [1] GET wildcards Some([\"id\"])",
        ">         01 / [0]  wildcards None",
        ">           00 *rest [0] GET wildcards Some([\"id\", \"rest\"])",
        ">     00 s [0] GET,POST wildcards None",
        "",
    ];
    assert_eq!(root.dump_tree(">", "@"), expected.join("\n"));
}

#[test]
fn priority_is_the_number_of_values_below() {
    let mut n = Node::new();
    insert(&mut n, Method::GET, "/pumpkin", "1");
    insert(&mut n, Method::GET, "/passing", "2");
    let expected = [
        " 02 / [1]  wildcards None",
        "   02 p [2]  wildcards None",
        "     00 umpkin [0] GET wildcards None",
        "     00 assing [0] GET wildcards None",
        "",
    ];
    assert_eq!(n.dump_tree("", ""), expected.join("\n"));

    let mut sub = Node::new();
    insert(&mut sub, Method::GET, "/pa", "3");
    insert(&mut sub, Method::POST, "/pa/x", "4");
    insert(&mut sub, Method::GET, "/", "5");
    n.try_extend("/pumpkin".into(), sub).unwrap();
    let expected = [
        " 04 / [1]  wildcards None",
        "   04 p [2]  wildcards None",
        "     02 umpkin [1] GET wildcards None",
        "       02 / [1]  wildcards None",
        "         01 pa [1] GET wildcards None",
        "           01 / [1]  wildcards None",
        "             00 x [0] POST wildcards None",
        "     00 assing [0] GET wildcards None",
        "",
    ];
    assert_eq!(n.dump_tree("", ""), expected.join("\n"));
}

#[test]
fn names_are_dumped_in_their_debug_form() {
    let mut n = Node::new();
    insert(&mut n, Method::GET, "/:a\"b", "1");
    let dump = n.dump_tree("", "");
    assert_eq!(dump.lines().nth(1), Some("   00 :a\"b [0] GET wildcards Some([\"a\\\"b\"])"));
}

#[test]
fn printable_names_are_dumped_as_they_are() {
    let mut n = Node::new();
    insert(&mut n, Method::GET, "/:user_id-2", "1");
    let dump = n.dump_tree("", "");
    assert_eq!(dump.lines().nth(1), Some("   00 :user_id-2 [0] GET wildcards Some([\"user_id-2\"])"));
}

#[test]
fn config_starts_with_nothing_switched_on() {
    let config: HandlerConfig<u32> = HandlerConfig::default();
    assert_eq!(config.method.as_str(), "GET");
    assert_eq!(config.path, "");
    assert_eq!(config.value, 0);
    assert!(!config.implicit_head && !config.head_can_use_get && !config.add_slash);
}

#[test]
fn refused_routes_leave_the_tree_alone() {
    let mut root = Node::new();
    insert(&mut root, Method::GET, "/a/:x", "x");
    insert(&mut root, Method::GET, "/c/*rest", "rest");
    let before = root.dump_tree("", "");

    let mut refused = |method: Method, path: &str| {
        root.try_insert(HandlerConfig::new(method, Cow::Owned(path.to_string()), "y"))
    };
    assert_eq!(refused(Method::GET, "/a/:x"), Err(RouteError::AlreadyHandled));
    assert_eq!(refused(Method::POST, "/a/:y"), Err(RouteError::WildcardNames));
    assert_eq!(refused(Method::POST, "/c/*other"), Err(RouteError::CatchAllName));
    assert_eq!(refused(Method::POST, "/c/*rest/more"), Err(RouteError::CatchAllName));
    assert_eq!(refused(Method::GET, "/c/*rest"), Err(RouteError::AlreadyHandled));

    let group: Node<&'static str> = Node::new();
    assert_eq!(root.try_extend("/c/*rest".into(), group), Err(RouteError::CatchAllGroup));
    let mut group = Node::new();
    insert(&mut group, Method::GET, "/b", "b");
    assert_eq!(root.try_extend("/a/:y".into(), group), Err(RouteError::WildcardNames));
    assert_eq!(root.dump_tree("", ""), before);
}

#[test]
fn names_of_another_length_are_refused() {
    let mut node: Node<u8> = Node::default();
    let handler = Handler {
        method: Method::GET,
        value: Arc::new(1),
        implicit_head: false,
        head_can_use_get: false,
        add_slash: false,
    };
    node.add_path("", Some(strings(&["a", "b"])), false, handler);
    let names = Some(strings(&["a"]));
    assert_eq!(node.refusal("", &names, false, &Method::PUT), Some(RouteError::WildcardCount));
    let names = Some(strings(&["a", "b"]));
    assert_eq!(node.refusal("", &names, false, &Method::PUT), None);
    assert_eq!(
        node.refusal("", &names, false, &Method::GET),
        Some(RouteError::AlreadyHandled)
    );
}

#[test]
fn paths_are_checked() {
    assert_eq!(check_path("/a"), Ok(()));
    assert_eq!(check_path("a"), Err(RouteError::NoLeadingSlash));
    assert_eq!(check_path(""), Err(RouteError::NoLeadingSlash));
    assert_eq!(check_scope("/a"), Ok(()));
    assert_eq!(check_scope("a"), Err(RouteError::NoLeadingSlash));
    assert_eq!(check_scope(""), Err(RouteError::EmptyPath));
}

#[test]
fn redirects_are_written() {
    assert_eq!(redirect_status(RedirectBehavior::Redirect301), 301);
    assert_eq!(redirect_status(RedirectBehavior::Redirect307), 307);
    assert_eq!(redirect_status(RedirectBehavior::Redirect308), 308);
    assert_eq!(redirect_status(RedirectBehavior::UseHandler), 301);
    assert_eq!(redirect_content_type(None), "text/html; charset=utf-8");
    assert_eq!(redirect_content_type(Some("text/plain".to_string())), "text/plain");
    assert_eq!(redirect_location("/a", None), "/a");
    assert_eq!(redirect_location("/a/", Some("b=c")), "/a/?b=c");
    assert!(has_trailing_slash("/a/"));
    assert!(!has_trailing_slash("/a"));
    assert!(!has_trailing_slash("/"));
}

#[test]
fn exact_routes_match_whole_paths() {
    let mut routes = ExactRoutes::new("fallback".to_string());
    routes.insert(Method::GET, "/the-thing".to_string(), "thing".to_string());
    routes.insert(Method::POST, "/the-thing".to_string(), "post".to_string());
    assert_eq!(routes.choose_mut(&Method::GET, "/the-thing"), "thing");
    assert_eq!(routes.choose_mut(&Method::POST, "/the-thing"), "post");
    assert_eq!(routes.choose_mut(&Method::GET, "/the"), "fallback");
    assert_eq!(routes.choose_mut(&Method::PUT, "/the-thing"), "fallback");
    routes.insert(Method::GET, "/the-thing".to_string(), "new".to_string());
    assert_eq!(routes.routes.len(), 2);
    assert_eq!(routes.choose_mut(&Method::GET, "/the-thing"), "new");
    routes.choose_mut(&Method::GET, "/nowhere").push_str(" used");
    assert_eq!(routes.fallback, "fallback used");
}

#[test]
fn success_is_told_from_failure() {
    assert_eq!(log_level(Some(200)), LogLevel::Info);
    assert_eq!(log_level(Some(299)), LogLevel::Info);
    assert_eq!(log_level(Some(199)), LogLevel::Warn);
    assert_eq!(log_level(Some(300)), LogLevel::Warn);
    assert_eq!(log_level(Some(404)), LogLevel::Warn);
    assert_eq!(log_level(None), LogLevel::Error);
}
