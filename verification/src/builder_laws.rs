//! What building a router does, said of patterns, prefixes and settings.

use vstd::prelude::*;

use crate::builder::{
    built, path_error, scope_error, scoped, with_route, with_routes, Builder, GroupBuilder,
    RedirectBehavior, RouteRules, RouterBuilder,
};
use crate::escape::uri_path_of;
use crate::graft::{extended, extension_refused};
use crate::layered::registers;
use crate::middleware::{wraps, Middleware};
use crate::model::{entered, refused, Registration, RouteError, Tree};
use crate::mux::Treemux;

verus! {

/// Adding a route to a group does what adding the prefix of the group followed by the path to the
/// router does, with the same outcome, whatever the path is. The group takes the same paths.
pub proof fn law_group_is_prefix<'a, V>(
    g: GroupBuilder<'a, V>,
    method: Seq<char>,
    path: Seq<char>,
    handler: V,
)
    ensures
        g.builder() == *old(g.inner),
        g.routes() == g.builder().routes(),
        g.valid() == g.builder().valid(),
        g.admits(path) == g.builder().admits(g.prefix@ + path),
        g.adding(method, path, handler) == g.builder().adding(method, g.prefix@ + path, handler),
{
}

/// A pattern that starts with a slash is taken by a router, and no other path is.
pub proof fn law_paths_taken<V>(b: Builder<V>, path: Seq<char>, c: char)
    ensures
        b.admits(seq!['/'] + path),
        c != '/' ==> !b.admits(seq![c] + path),
        !b.admits(Seq::empty()),
{
    assert((seq!['/'] + path)[0] == '/');
    assert((seq![c] + path)[0] == c);
}

/// What adding a route to a router does is decided by its routes, the pattern, and three settings.
pub proof fn law_adding<V>(b: Builder<V>, method: Seq<char>, path: Seq<char>, handler: V)
    ensures
        b.valid() == b.wf(),
        b.routes() == b.root.tree(),
        b.adding(method, path, handler) == with_route(
            b.root.tree(),
            path,
            method,
            handler,
            RouteRules {
                head_can_use_get: b.head_can_use_get,
                redirect_trailing_slash: b.redirect_trailing_slash,
                escape_added_routes: b.escape_added_routes,
            },
        ),
{
}

/// Adding a route changes nothing but the routes.
pub proof fn law_settings_kept<'a, V>(b: Builder<V>, c: Builder<V>)
    requires
        b.keeps(&c),
    ensures
        b == (Builder { root: b.root, ..c }),
{
}

/// Adding a route to a group changes nothing but the routes of the router.
pub proof fn law_group_settings_kept<'a, V>(g: GroupBuilder<'a, V>, h: GroupBuilder<'a, V>)
    requires
        g.keeps(&h),
    ensures
        g.prefix@ == h.prefix@,
        g.builder() == (Builder { root: g.builder().root, ..h.builder() }),
{
}

/// A pattern that ends in no slash is entered as it stands, and so is every pattern if slashes at
/// the end do not matter. If it is refused nothing is entered.
pub proof fn law_added_as_it_stands<V>(
    t: Tree<V>,
    pattern: Seq<char>,
    method: Seq<char>,
    value: V,
    rules: RouteRules,
)
    requires
        pattern.len() > 0,
        pattern.len() == 1 || pattern.last() != '/' || !rules.redirect_trailing_slash,
        !rules.escape_added_routes,
    ensures
        with_route(t, pattern, method, value, rules) == match refused(t, pattern, method) {
            Some(e) => (t, Some(e)),
            None => (
                entered(
                    t,
                    pattern,
                    Registration {
                        method,
                        value,
                        head_can_use_get: rules.head_can_use_get,
                        add_slash: false,
                    },
                ),
                None::<RouteError>,
            ),
        },
{
}

/// A pattern that ends in a slash is entered without it, and marked with it.
pub proof fn law_added_with_slash<V>(
    t: Tree<V>,
    pattern: Seq<char>,
    method: Seq<char>,
    value: V,
    rules: RouteRules,
)
    requires
        pattern.len() > 0,
        rules.redirect_trailing_slash,
        !rules.escape_added_routes,
    ensures
        with_route(t, pattern + seq!['/'], method, value, rules) == match refused(
            t,
            pattern,
            method,
        ) {
            Some(e) => (t, Some(e)),
            None => (
                entered(
                    t,
                    pattern,
                    Registration {
                        method,
                        value,
                        head_can_use_get: rules.head_can_use_get,
                        add_slash: true,
                    },
                ),
                None::<RouteError>,
            ),
        },
{
    assert((pattern + seq!['/']).drop_last() =~= pattern);
}

/// The empty pattern is refused.
pub proof fn law_empty_pattern<V>(t: Tree<V>, method: Seq<char>, value: V, rules: RouteRules)
    ensures
        with_route(t, Seq::empty(), method, value, rules) == (t, Some(RouteError::EmptyPath)),
{
}

/// Where patterns are escaped, a pattern is first added as otherwise. If it is its own path in a
/// URI that is all. Otherwise its path in a URI is entered too, with the same handler and the same
/// mark of a slash at the end; if it is no URI, that is the error.
pub proof fn law_escaped_too<V>(
    t: Tree<V>,
    pattern: Seq<char>,
    slashed: bool,
    method: Seq<char>,
    value: V,
    rules: RouteRules,
)
    requires
        pattern.len() > 0,
        rules.escape_added_routes,
        slashed ==> rules.redirect_trailing_slash,
        !slashed ==> pattern.len() == 1 || pattern.last() != '/' || !rules.redirect_trailing_slash,
    ensures
        ({
            let written = if slashed {
                pattern + seq!['/']
            } else {
                pattern
            };
            let once = with_route(
                t,
                written,
                method,
                value,
                (RouteRules { escape_added_routes: false, ..rules }),
            );
            let r = Registration {
                method,
                value,
                head_can_use_get: rules.head_can_use_get,
                add_slash: slashed,
            };
            with_route(t, written, method, value, rules) == if once.1 is Some {
                once
            } else {
                match uri_path_of(pattern) {
                    None => (once.0, Some(RouteError::InvalidUri)),
                    Some(path) => if path == pattern {
                        once
                    } else {
                        match refused(once.0, path, method) {
                            Some(e) => (once.0, Some(e)),
                            None => (entered(once.0, path, r), None),
                        }
                    },
                }
            }
        }),
{
    assert((pattern + seq!['/']).drop_last() =~= pattern);
}

/// The prefix of a group inside a group is both prefixes, one behind the other. One slash at its
/// end is dropped.
pub proof fn law_scopes_are_joined(prefix: Seq<char>, path: Seq<char>)
    ensures
        scoped(prefix, path + seq!['/']) == prefix + path,
        path.len() > 0 && path.last() != '/' ==> scoped(prefix, path) == prefix + path,
{
    assert((prefix + (path + seq!['/'])) =~= (prefix + path) + seq!['/']);
    assert(((prefix + path) + seq!['/']).drop_last() =~= prefix + path);
}

/// A path in a group in a group is a path in one group of both prefixes.
pub proof fn law_nested_scopes(outer: Seq<char>, inner: Seq<char>, path: Seq<char>)
    requires
        inner.len() > 0,
        inner.last() != '/',
    ensures
        scoped(scoped(Seq::empty(), outer + seq!['/']), inner) + path == outer + (inner + path),
        outer.len() > 0 && outer.last() != '/' ==> scoped(scoped(Seq::empty(), outer), inner) + path
            == outer + (inner + path),
{
    law_scopes_are_joined(Seq::empty(), outer);
    law_scopes_are_joined(outer, inner);
    assert(Seq::<char>::empty() + outer =~= outer);
    assert((outer + inner) + path =~= outer + (inner + path));
}

/// Only a path that starts with a slash can be the start of a route or the prefix of a group.
pub proof fn law_path_errors(path: Seq<char>, c: char)
    ensures
        path_error(seq!['/'] + path) is None,
        scope_error(seq!['/'] + path) is None,
        c != '/' ==> path_error(seq![c] + path) == Some(RouteError::NoLeadingSlash),
        c != '/' ==> scope_error(seq![c] + path) == Some(RouteError::NoLeadingSlash),
        path_error(Seq::empty()) == Some(RouteError::NoLeadingSlash),
        scope_error(Seq::empty()) == Some(RouteError::EmptyPath),
{
    assert((seq!['/'] + path)[0] == '/');
    assert((seq![c] + path)[0] == c);
}

/// Routes are attached below the prefix of the group followed by the path, with or without a slash
/// at its end. If they are refused nothing is attached.
pub proof fn law_routes_attached<V>(
    t: Tree<V>,
    prefix: Seq<char>,
    path: Seq<char>,
    routes: Tree<V>,
)
    requires
        path.len() > 0 ==> path.last() != '/',
    ensures
        ({
            let outcome = match extension_refused(t, prefix + path, routes) {
                Some(e) => (t, Some(e)),
                None => (extended(t, prefix + path, routes), None),
            };
            &&& with_routes(t, prefix, path + seq!['/'], routes) == outcome
            &&& path.len() > 0 ==> with_routes(t, prefix, path, routes) == outcome
        }),
{
    law_scopes_are_joined(prefix, path);
}

/// A router has the routes, the handlers and the settings of the builder it is built from.
pub proof fn law_built<V>(b: Builder<V>)
    ensures
        built(b).root == b.root,
        built(b).tree() == b.tree(),
        built(b).wf() == b.wf(),
        built(b).handle_not_found == b.handle_not_found,
        built(b).handle_method_not_allowed == b.handle_method_not_allowed,
        built(b).handle_global_options == b.handle_global_options,
        built(b).head_can_use_get == b.head_can_use_get,
        built(b).redirect_trailing_slash == b.redirect_trailing_slash,
        built(b).redirect_clean_path == b.redirect_clean_path,
        built(b).redirect_behavior == b.redirect_behavior,
        built(b).redirect_method_behavior == b.redirect_method_behavior,
        built(b).remove_catch_all_trailing_slash == b.remove_catch_all_trailing_slash,
        built(b).escape_added_routes == b.escape_added_routes,
{
}

/// The settings of a new router: a `GET` handler may stand in for `HEAD`, slashes at the end are
/// redirected and paths are cleaned, all with a permanent redirect whatever the method; catch-alls
/// keep their slashes, patterns are not escaped, and no handler but those of routes is set.
pub proof fn law_default_settings<V>(m: Treemux<V>)
    requires
        m.has_defaults(),
    ensures
        m.head_can_use_get,
        m.redirect_trailing_slash,
        m.redirect_clean_path,
        m.redirect_behavior == Some(RedirectBehavior::Redirect301),
        m.redirect_method_behavior@.len() == 0,
        !m.remove_catch_all_trailing_slash,
        !m.escape_added_routes,
        m.handle_not_found is None,
        m.handle_method_not_allowed is None,
        m.handle_global_options is None,
{
}

/// Registering a wrapped handler does what adding it to the router does.
pub proof fn law_registering<V>(
    before: Builder<V>,
    after: Builder<V>,
    method: Seq<char>,
    path: Seq<char>,
    handler: V,
    r: Result<(), RouteError>,
)
    requires
        registers(before, after, method, path, handler, r),
    ensures
        after.wf(),
        after == (Builder { root: after.root, ..before }),
        after.root.tree() == before.adding(method, path, handler).0,
        r is Ok <==> before.adding(method, path, handler).1 is None,
        r is Err ==> before.adding(method, path, handler).1 == Some(r->Err_0),
{
}

/// With no middleware a handler stays as it is. A middleware that was added last wraps a handler
/// first, and what it makes of it is wrapped by those that were added before.
pub proof fn law_middlewares_wrap_in_turn<V, M: Middleware<Input = V, Output = V>>(
    links: Seq<M>,
    last: M,
    handler: V,
    wrapped: V,
)
    ensures
        wraps(Seq::<M>::empty(), handler, wrapped) <==> handler == wrapped,
        wraps(links.push(last), handler, wrapped) <==> exists|inner: V|
            #[trigger] call_ensures(M::chain, (&last, handler), inner) && wraps(
                links,
                inner,
                wrapped,
            ),
{
    let all = links.push(last);
    assert(all.drop_last() =~= links);
    assert(all.last() == last);
    if wraps(all, handler, wrapped) {
        let inner = choose|mid: V| #[trigger]
            call_ensures(M::chain, (&all.last(), handler), mid) && wraps(
                all.drop_last(),
                mid,
                wrapped,
            );
        assert(call_ensures(M::chain, (&last, handler), inner));
    }
    if exists|inner: V|
        #[trigger] call_ensures(M::chain, (&last, handler), inner) && wraps(links, inner, wrapped) {
        let inner = choose|inner: V|
            #[trigger] call_ensures(M::chain, (&last, handler), inner) && wraps(
                links,
                inner,
                wrapped,
            );
        assert(call_ensures(M::chain, (&all.last(), handler), inner));
    }
}

} // verus!
