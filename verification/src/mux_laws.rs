//! What holds of the answers of a router.

use vstd::prelude::*;

use crate::builder::{marks_slash, registration_for, trimmed, with_route, RouteRules};
use crate::decode::all_decoded;
use crate::laws::{
    ends_well, law_free_is_accepted, law_grown_strict, law_parameters_are_named,
    law_registered_handlers, law_registered_is_found, law_slash_mark_stays, lemma_plain_route,
    lemma_static_is_first,
};
use crate::lookup::{
    captures, law_best_route_is_found, law_found_is_registered, law_not_found,
    lemma_captures_literals, prefers,
};
use crate::method::{distinct, lemma_entry_at, lemma_method_names, methods_of, value_of};
use crate::model::{
    blank_leaf, blank_tree, entered, find, has_value, listed, literals, named, refused,
    Registration, RouteError, Symbol, Tree,
};
use crate::mux::{
    location_of, looked_up, needs_slash_redirect, redirect_of, response, seen_in, slash_target,
    status_of, trails_slash, Answer, Found, Treemux,
};
use crate::params::zipped;
use crate::routes::{held_at, law_registered_at, lemma_held_blank, names_in, route_of};
use crate::shape::lemma_blank_wf;
use crate::text::without_start_slash;

verus! {

/// A request that is sent to the same path with or without a trailing slash is answered there by
/// the handler, and not sent on. The path must not end in two slashes.
pub proof fn law_slash_redirect_settles<V>(
    m: Treemux<V>,
    method: Seq<char>,
    path: Seq<char>,
    f: Found<V>,
    query: Option<Seq<char>>,
    clean_path: Seq<char>,
)
    requires
        m.wf(),
        seen_in(m.tree(), method, looked_up(m, path)) == Some(f),
        f.value is Some,
        redirect_of(m, method) is Some,
        needs_slash_redirect(m, path, f),
        looked_up(m, path).len() > 0,
        !trails_slash(looked_up(m, path)),
    ensures
        response(m, method, path, query, clean_path) == (Answer::<V>::Redirect {
            status: status_of(redirect_of(m, method)->0),
            location: location_of(slash_target(m, path, f.add_slash), query),
        }),
        response(m, method, slash_target(m, path, f.add_slash), query, clean_path) == (
        Answer::Call { value: f.value->0, params: f.params }),
{
    let target = slash_target(m, path, f.add_slash);
    reveal_strlit("/");
    if f.add_slash {
        assert(target.drop_last() =~= looked_up(m, path));
    }
}

/// A route that is not a catch-all is reached by one form of its paths, with or without a trailing
/// slash, as it was registered; a request for the other form is sent to it.
pub proof fn law_one_form_of_a_path<V>(
    m: Treemux<V>,
    method: Seq<char>,
    path: Seq<char>,
    f: Found<V>,
    query: Option<Seq<char>>,
    clean_path: Seq<char>,
)
    requires
        m.wf(),
        m.redirect_trailing_slash,
        redirect_of(m, method) is Some,
        path.len() > 0,
        !trails_slash(path),
        seen_in(m.tree(), method, path) == Some(f),
        f.value is Some,
        !f.is_catch_all,
    ensures
        ({
            let plain = response(m, method, path, query, clean_path);
            let slashed = response(m, method, path + "/"@, query, clean_path);
            let called = Answer::Call { value: f.value->0, params: f.params };
            let status = status_of(redirect_of(m, method)->0);
            if f.add_slash {
                slashed == called && plain == (Answer::<V>::Redirect {
                    status,
                    location: location_of(path + "/"@, query),
                })
            } else {
                plain == called && slashed == (Answer::<V>::Redirect {
                    status,
                    location: location_of(path, query),
                })
            }
        }),
{
    reveal_strlit("/");
    let slashed = path + "/"@;
    assert(slashed.drop_last() =~= path);
    assert(trails_slash(slashed));
}

/// What a catch-all matches is handed to its handler as it is, unless trailing slashes are to be
/// removed there too.
pub proof fn law_catch_all_is_not_redirected<V>(
    m: Treemux<V>,
    method: Seq<char>,
    path: Seq<char>,
    f: Found<V>,
    query: Option<Seq<char>>,
    clean_path: Seq<char>,
)
    requires
        m.wf(),
        !m.remove_catch_all_trailing_slash,
        seen_in(m.tree(), method, looked_up(m, path)) == Some(f),
        f.value is Some,
        f.is_catch_all,
    ensures
        response(m, method, path, query, clean_path) == (Answer::Call {
            value: f.value->0,
            params: f.params,
        }),
{
}

/// Where handlers are to be used instead of redirects, no request is sent elsewhere.
pub proof fn law_use_handler_never_redirects<V>(
    m: Treemux<V>,
    method: Seq<char>,
    path: Seq<char>,
    query: Option<Seq<char>>,
    clean_path: Seq<char>,
)
    requires
        redirect_of(m, method) is None,
    ensures
        !(response(m, method, path, query, clean_path) is Redirect),
{
}

/// The query of a request decides nothing but what stands behind the path it is sent to.
pub proof fn law_query_is_carried_along<V>(
    m: Treemux<V>,
    method: Seq<char>,
    path: Seq<char>,
    query: Seq<char>,
    clean_path: Seq<char>,
)
    ensures
        ({
            let plain = response(m, method, path, None, clean_path);
            let with_query = response(m, method, path, Some(query), clean_path);
            match plain {
                Answer::Redirect { status, location } => with_query == (Answer::<V>::Redirect {
                    status,
                    location: location + "?"@ + query,
                }),
                _ => with_query == plain,
            }
        }),
{
}

/// Where a path is matched but not with the method, the methods that are named are those with
/// which it is: there is at least one, the method itself is not among them, and a request with any
/// of them finds a handler.
pub proof fn law_allowed_methods_are_handled<V>(t: Tree<V>, method: Seq<char>, path: Seq<char>)
    requires
        t.strict(),
    ensures
        find(t, method, path) is Some && find(t, method, path)->0.value is None ==> {
            let allowed = methods_of(find(t, method, path)->0.leaf.handlers);
            &&& allowed.len() > 0
            &&& !allowed.contains(method)
            &&& forall|other: Seq<char>| #[trigger]
                allowed.contains(other) ==> has_value(find(t, other, path))
        },
{
    law_found_is_registered(t, method, path);
    if let Some(h) = find(t, method, path) {
        if h.value is None {
            let table = h.leaf.handlers;
            let allowed = methods_of(table);
            lemma_entry_at(table, method);
            assert(!allowed.contains(method)) by {
                if allowed.contains(method) {
                    let i = allowed.index_of(method);
                    assert(table[i].0 == method);
                }
            }
            assert forall|other: Seq<char>| #[trigger] allowed.contains(other) implies has_value(
                find(t, other, path),
            ) by {
                let i = allowed.index_of(other);
                assert(table[i].0 == other);
                lemma_entry_at(table, other);
                assert(value_of(table, other) is Some);
                assert(held_at(t, h.route) == h.leaf);
                law_best_route_is_found(t, other, path, h.route);
            }
        }
    }
}

/// A request is answered with "not found" exactly where no route with handlers matches its path
/// nor, if paths are cleaned, its cleaned path.
pub proof fn law_not_found_answer<V>(
    m: Treemux<V>,
    method: Seq<char>,
    path: Seq<char>,
    query: Option<Seq<char>>,
    clean_path: Seq<char>,
)
    requires
        m.wf(),
    ensures
        response(m, method, path, query, clean_path) is NotFound <==> {
            &&& forall|route: Seq<Symbol>|
                #![trigger held_at(m.tree(), route)]
                captures(route, without_start_slash(looked_up(m, path))) is Some ==> held_at(
                    m.tree(),
                    route,
                ).handlers.len() == 0
            &&& m.redirect_clean_path ==> forall|route: Seq<Symbol>|
                #![trigger held_at(m.tree(), route)]
                captures(route, without_start_slash(clean_path)) is Some ==> held_at(
                    m.tree(),
                    route,
                ).handlers.len() == 0
        },
{
    law_not_found(m.tree(), method, without_start_slash(looked_up(m, path)));
    law_not_found(m.tree(), method, without_start_slash(clean_path));
}

/// The handler for `OPTIONS` requests answers those to a path that is registered for other methods
/// only; a handler that is registered for `OPTIONS` on the path goes before it.
pub proof fn law_global_options<V>(
    m: Treemux<V>,
    path: Seq<char>,
    f: Found<V>,
    query: Option<Seq<char>>,
    clean_path: Seq<char>,
)
    requires
        m.handle_global_options is Some,
        seen_in(m.tree(), "OPTIONS"@, looked_up(m, path)) == Some(f),
    ensures
        ({
            let answer = response(m, "OPTIONS"@, path, query, clean_path);
            if f.value is None {
                answer == (Answer::GlobalOptions { value: m.handle_global_options->0 })
            } else {
                answer is Call || answer is Redirect
            }
        }),
{
}

/// A `GET` handler answers `HEAD` requests too, on every path that its pattern matches, unless the
/// pattern has a handler for them or a pattern that is preferred has.
pub proof fn law_head_uses_get<V>(
    t: Tree<V>,
    pattern: Seq<char>,
    r: Registration<V>,
    path: Seq<char>,
)
    requires
        t.strict(),
        r.method == "GET"@,
        r.head_can_use_get,
        captures(route_of(without_start_slash(pattern), false), path) is Some,
        value_of(
            held_at(t, route_of(without_start_slash(pattern), false)).handlers,
            "HEAD"@,
        ) is None,
        forall|other: Seq<Symbol>|
            #![trigger held_at(t, other)]
            prefers(other, route_of(without_start_slash(pattern), false)) && captures(other, path)
                is Some ==> value_of(held_at(t, other).handlers, "HEAD"@) is None,
    ensures
        find(entered(t, pattern, r), "HEAD"@, path) matches Some(h) && h.value == Some(r.value),
{
    let stripped = without_start_slash(pattern);
    let route = route_of(stripped, false);
    let g = entered(t, pattern, r);
    let before = held_at(t, route);
    lemma_method_names();
    law_grown_strict(t, stripped, None, false, r);
    law_registered_at(t, stripped, None, false, r, route);
    law_registered_handlers(before, r, "HEAD"@);
    law_registered_handlers(named(before, names_in(stripped, None, false)), r, "HEAD"@);
    law_best_route_is_found(g, "HEAD"@, path, route);
    law_found_is_registered(g, "HEAD"@, path);
    let h = find(g, "HEAD"@, path)->0;
    if h.route != route {
        law_registered_at(t, stripped, None, false, r, h.route);
        assert(held_at(g, h.route) == held_at(t, h.route));
    }
}

/// Whether a route counts as written with a trailing slash is decided by all registrations of it:
/// one with a slash is enough.
pub proof fn law_slash_mark_of_a_pattern<V>(t: Tree<V>, pattern: Seq<char>, r: Registration<V>)
    requires
        t.wf(),
    ensures
        ({
            let route = route_of(without_start_slash(pattern), false);
            held_at(entered(t, pattern, r), route).add_slash == (held_at(t, route).add_slash
                || r.add_slash)
        }),
{
    let stripped = without_start_slash(pattern);
    let route = route_of(stripped, false);
    let names = names_in(stripped, None, false);
    law_registered_at(t, stripped, None, false, r, route);
    law_slash_mark_stays(held_at(t, route), r);
    law_slash_mark_stays(named(held_at(t, route), names), r);
}

/// A handler that was added for a pattern answers the requests for the paths that the pattern
/// matches, and is given the decoded parts of the path under the names of the pattern. This holds
/// for a path unless a pattern that is preferred matches it too and has a handler for the method,
/// or unless the request is sent to the same path with or without a trailing slash.
pub proof fn law_added_pattern_is_answered<V>(
    t: Tree<V>,
    m: Treemux<V>,
    pattern: Seq<char>,
    method: Seq<char>,
    handler: V,
    rules: RouteRules,
    path: Seq<char>,
    query: Option<Seq<char>>,
    clean_path: Seq<char>,
)
    requires
        t.strict(),
        m.wf(),
        !rules.escape_added_routes,
        with_route(t, pattern, method, handler, rules) == (m.tree(), None::<RouteError>),
        captures(
            pattern_route(pattern, rules),
            without_start_slash(looked_up(m, path)),
        ) is Some,
        forall|other: Seq<Symbol>|
            #![trigger held_at(t, other)]
            prefers(other, pattern_route(pattern, rules)) && captures(
                other,
                without_start_slash(looked_up(m, path)),
            ) is Some ==> value_of(held_at(t, other).handlers, method) is None,
        ({
            let leaf = held_at(m.tree(), pattern_route(pattern, rules));
            ||| redirect_of(m, method) is None
            ||| !m.redirect_trailing_slash
            ||| trails_slash(path) == leaf.add_slash
            ||| leaf.is_catch_all() && !m.remove_catch_all_trailing_slash
        }),
    ensures
        response(m, method, path, query, clean_path) == (Answer::Call {
            value: handler,
            params: zipped(
                listed(names_in(without_start_slash(trimmed(pattern, rules)), None, false)),
                all_decoded(
                    captures(
                        pattern_route(pattern, rules),
                        without_start_slash(looked_up(m, path)),
                    )->0,
                ),
            ),
        }),
{
    let entry = trimmed(pattern, rules);
    let r = registration_for(pattern, method, handler, rules);
    let stripped = without_start_slash(entry);
    let route = route_of(stripped, false);
    let rest = without_start_slash(looked_up(m, path));
    let names = listed(names_in(stripped, None, false));
    assert(refused(t, entry, method) is None);
    assert(m.tree() == entered(t, entry, r));
    law_registered_is_found(t, entry, r, rest);
    law_parameters_are_named(t, entry, r, rest);
    law_registered_at(t, stripped, None, false, r, route);
    let h = find(m.tree(), method, rest)->0;
    assert(h.leaf == held_at(m.tree(), route));
    assert(zipped(h.names, all_decoded(h.params)) =~= zipped(names, all_decoded(h.params)));
}

/// The route of a pattern as it is entered.
pub open spec fn pattern_route(pattern: Seq<char>, rules: RouteRules) -> Seq<Symbol> {
    route_of(without_start_slash(trimmed(pattern, rules)), false)
}

/// A handler that was added for a static path answers requests for that path, whatever else was
/// added before; only where the path was added before with a trailing slash, and now without one,
/// the request is sent to the path with the slash.
pub proof fn law_added_path_is_answered<V>(
    t: Tree<V>,
    m: Treemux<V>,
    pattern: Seq<char>,
    method: Seq<char>,
    handler: V,
    rules: RouteRules,
    query: Option<Seq<char>>,
    clean_path: Seq<char>,
)
    requires
        t.strict(),
        m.wf(),
        !rules.escape_added_routes,
        rules.redirect_trailing_slash == m.redirect_trailing_slash,
        !pattern.contains(':'),
        !pattern.contains('*'),
        !pattern.contains('\\'),
        with_route(t, pattern, method, handler, rules) == (m.tree(), None::<RouteError>),
        marks_slash(pattern, rules) || !held_at(
            t,
            literals(without_start_slash(trimmed(pattern, rules))),
        ).add_slash,
    ensures
        response(m, method, pattern, query, clean_path) == (Answer::Call {
            value: handler,
            params: Seq::empty(),
        }),
{
    let path = trimmed(pattern, rules);
    let r = registration_for(pattern, method, handler, rules);
    let stripped = without_start_slash(path);
    let route = literals(stripped);
    assert(m.tree() == entered(t, path, r));
    assert(looked_up(m, pattern) == path);
    assert forall|i: int| 0 <= i < stripped.len() implies pattern.contains(stripped[i]) by {
        if stripped != path {
            assert(stripped[i] == pattern[i + 1]);
        } else {
            assert(stripped[i] == pattern[i]);
        }
    }
    lemma_plain_route(stripped, false);
    lemma_captures_literals(stripped, Seq::empty(), stripped);
    assert(literals(stripped) + Seq::<Symbol>::empty() =~= route);
    assert(stripped.is_prefix_of(stripped)) by {
        assert(stripped.subrange(0, stripped.len() as int) =~= stripped);
    }
    assert forall|other: Seq<Symbol>|
        #![trigger held_at(t, other)]
        prefers(other, route) && captures(other, stripped) is Some implies value_of(
        held_at(t, other).handlers,
        r.method,
    ) is None by {
        lemma_static_is_first(other, stripped);
    }
    law_registered_is_found(t, path, r, stripped);
    law_slash_mark_of_a_pattern(t, path, r);
    let h = find(m.tree(), method, stripped)->0;
    assert(h.leaf == held_at(m.tree(), route)) by {
        law_registered_at(t, stripped, None, false, r, route);
    }
    assert(!h.leaf.is_catch_all()) by {
        lemma_no_catch_all(m.tree(), stripped);
    }
    assert(zipped(h.names, all_decoded(h.params)) =~= Seq::<(Seq<char>, Seq<char>)>::empty());
}

/// A route has at most one handler for each method.
pub proof fn lemma_held_distinct<V>(t: Tree<V>, route: Seq<Symbol>)
    requires
        t.wf(),
    ensures
        distinct(held_at(t, route).handlers),
    decreases t,
{
    if route.len() > 0 {
        match route[0] {
            Symbol::Literal(c) => {
                crate::routes::lemma_held_static(t, route, c);
                if t.indices.contains(c) {
                    let child = t.children[t.indices.index_of(c)];
                    let k = child.path.len() as int;
                    if literals(child.path).is_prefix_of(route) {
                        lemma_held_distinct(child, route.skip(k));
                    }
                }
            },
            Symbol::Wildcard => {
                if let Some(w) = t.wildcard {
                    lemma_held_distinct(*w, route.skip(1));
                }
            },
            Symbol::CatchAll => {},
        }
    }
}

/// A static route does not end in a catch-all.
proof fn lemma_no_catch_all<V>(t: Tree<V>, text: Seq<char>)
    requires
        t.wf(),
    ensures
        !held_at(t, literals(text)).is_catch_all(),
    decreases t,
{
    let route = literals(text);
    if text.len() > 0 {
        let c = text[0];
        crate::routes::lemma_held_static(t, route, c);
        assert(route.last() == Symbol::Literal(text.last()));
        if t.indices.contains(c) {
            let child = t.children[t.indices.index_of(c)];
            let k = child.path.len() as int;
            if literals(child.path).is_prefix_of(route) {
                assert(route.skip(k) =~= literals(text.skip(k)));
                lemma_no_catch_all(child, text.skip(k));
            }
        }
    }
}

/// A new router accepts every pattern in which nothing follows a catch-all.
pub proof fn law_new_router_accepts<V>(
    pattern: Seq<char>,
    method: Seq<char>,
    handler: V,
    rules: RouteRules,
)
    requires
        pattern.len() > 0,
        !rules.escape_added_routes,
        ends_well(without_start_slash(trimmed(pattern, rules)), false),
    ensures
        with_route(blank_tree::<V>("/"@), pattern, method, handler, rules) == (
            entered(
                blank_tree::<V>("/"@),
                trimmed(pattern, rules),
                registration_for(pattern, method, handler, rules),
            ),
            None::<RouteError>,
        ),
{
    let stripped = without_start_slash(trimmed(pattern, rules));
    let route = route_of(stripped, false);
    lemma_blank_wf::<V>("/"@);
    lemma_held_blank::<V>("/"@, route);
    lemma_entry_at(blank_leaf::<V>().handlers, method);
    law_free_is_accepted(blank_tree::<V>("/"@), stripped, None, false, method);
}

} // verus!
