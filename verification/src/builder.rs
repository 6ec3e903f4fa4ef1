//! Building a router: routes, groups of routes, settings.

use std::borrow::Cow;
use std::sync::Arc;

use vstd::prelude::*;

use crate::escape::{is_plain_path, uri_path, uri_path_of};
use crate::graft::{extended, extension_refused, lemma_grafted_wf};
use crate::graft_laws::law_grafted_strict;
use crate::laws::law_grown_strict;
use crate::method::{Method, MethodMap};
use crate::model::{blank_tree, entered, refused, Registration, RouteError, Tree};
use crate::mux::Treemux;
use crate::text::{
    join, same_text, strip_end_slash, strip_start_slash, without_end_slash, without_start_slash,
};
use crate::tree::{Handler, Node};

verus! {

/// How a request for another form of a path is answered.
#[derive(Debug, Clone, Copy, PartialEq, Eq, Structural)]
pub enum RedirectBehavior {
    /// Moved permanently.
    Redirect301,
    /// Temporary redirect.
    Redirect307,
    /// Permanent redirect.
    Redirect308,
    /// No redirect: the handler is called.
    UseHandler,
}

/// What decides how a pattern is entered.
pub struct RouteRules {
    pub head_can_use_get: bool,
    pub redirect_trailing_slash: bool,
    pub escape_added_routes: bool,
}

/// Whether a pattern is marked to have a trailing slash.
pub open spec fn marks_slash(pattern: Seq<char>, rules: RouteRules) -> bool {
    pattern.len() > 1 && pattern.last() == '/' && rules.redirect_trailing_slash
}

/// The pattern as it is entered into the tree.
pub open spec fn trimmed(pattern: Seq<char>, rules: RouteRules) -> Seq<char> {
    if marks_slash(pattern, rules) {
        pattern.drop_last()
    } else {
        pattern
    }
}

/// What is registered for a pattern.
pub open spec fn registration_for<V>(
    pattern: Seq<char>,
    method: Seq<char>,
    value: V,
    rules: RouteRules,
) -> Registration<V> {
    Registration {
        method,
        value,
        head_can_use_get: rules.head_can_use_get,
        add_slash: marks_slash(pattern, rules),
    }
}

/// The tree after an attempt to add a route, and why it was refused: the pattern is entered and,
/// if patterns are escaped, its path as a URI too, unless that is the same.
pub open spec fn with_route<V>(
    t: Tree<V>,
    pattern: Seq<char>,
    method: Seq<char>,
    value: V,
    rules: RouteRules,
) -> (Tree<V>, Option<RouteError>) {
    let path = trimmed(pattern, rules);
    let r = registration_for(pattern, method, value, rules);
    if pattern.len() == 0 {
        (t, Some(RouteError::EmptyPath))
    } else if refused(t, path, method) is Some {
        (t, refused(t, path, method))
    } else {
        let first = entered(t, path, r);
        if !rules.escape_added_routes {
            (first, None)
        } else {
            match uri_path_of(path) {
                None => (first, Some(RouteError::InvalidUri)),
                Some(escaped) => if escaped == path {
                    (first, None)
                } else if refused(first, escaped, method) is Some {
                    (first, refused(first, escaped, method))
                } else {
                    (entered(first, escaped, r), None)
                },
            }
        }
    }
}

/// Why a path cannot be the start of a route.
pub open spec fn path_error(path: Seq<char>) -> Option<RouteError> {
    if path.len() == 0 || path[0] != '/' {
        Some(RouteError::NoLeadingSlash)
    } else {
        None
    }
}

/// Why a path cannot be the prefix of a group.
pub open spec fn scope_error(path: Seq<char>) -> Option<RouteError> {
    if path.len() == 0 {
        Some(RouteError::EmptyPath)
    } else {
        path_error(path)
    }
}

/// Checks that a path starts with a slash.
pub fn check_path(path: &str) -> (r: Result<(), RouteError>)
    ensures
        match path_error(path@) {
            None => r is Ok,
            Some(e) => r == Err::<(), RouteError>(e),
        },
{
    if path.is_empty() || path.get_char(0) != '/' {
        Err(RouteError::NoLeadingSlash)
    } else {
        Ok(())
    }
}

/// Checks that a path can be the prefix of a group.
pub fn check_scope(path: &str) -> (r: Result<(), RouteError>)
    ensures
        match scope_error(path@) {
            None => r is Ok,
            Some(e) => r == Err::<(), RouteError>(e),
        },
{
    if path.is_empty() {
        Err(RouteError::EmptyPath)
    } else {
        check_path(path)
    }
}

/// A router under construction.
#[derive(Debug)]
pub struct Builder<V> {
    /// The routes.
    pub root: Node<V>,
    /// Handles requests whose path no route matches.
    pub handle_not_found: Option<V>,
    /// Handles requests whose path is matched, but not with their method.
    pub handle_method_not_allowed: Option<V>,
    /// Handles `OPTIONS` requests whose path is matched, but not with that method.
    pub handle_global_options: Option<V>,
    /// Allows the router to use the `GET` handler to respond to `HEAD` requests if no explicit
    /// `HEAD` handler has been added for the matching pattern. This is true by default.
    pub head_can_use_get: bool,
    /// Enables automatic redirection in case the router doesn't find a matching route for the
    /// current request path but a handler for the path with or without the trailing slash exists.
    /// This is true by default.
    pub redirect_trailing_slash: bool,
    /// Allows the router to try to clean the current request path, if no handler is registered for
    /// it. This is true by default.
    pub redirect_clean_path: bool,
    /// How requests are redirected, unless it is said for their method.
    pub redirect_behavior: Option<RedirectBehavior>,
    /// Overrides the default behavior for particular methods.
    pub redirect_method_behavior: MethodMap<RedirectBehavior>,
    /// Removes the trailing slash when a catch-all pattern is matched, if set to true. By default,
    /// catch-all paths are never redirected.
    pub remove_catch_all_trailing_slash: bool,
    /// If set to true, the router will add both the route as originally passed, and its path as a
    /// URI. This behavior is disabled by default.
    pub escape_added_routes: bool,
}

impl<V> Builder<V> {
    /// The routes that were added.
    pub open spec fn tree(&self) -> Tree<V> {
        self.root.tree()
    }

    /// The routes form a tree whose root is a slash.
    pub open spec fn wf(&self) -> bool {
        &&& self.tree().strict()
        &&& self.tree().path == seq!['/']
    }

    /// What decides how a pattern is entered.
    pub open spec fn rules(&self) -> RouteRules {
        RouteRules {
            head_can_use_get: self.head_can_use_get,
            redirect_trailing_slash: self.redirect_trailing_slash,
            escape_added_routes: self.escape_added_routes,
        }
    }

    /// Whether two builders differ in their routes only.
    pub open spec fn same_but_routes(&self, other: &Self) -> bool {
        &&& self.handle_not_found == other.handle_not_found
        &&& self.handle_method_not_allowed == other.handle_method_not_allowed
        &&& self.handle_global_options == other.handle_global_options
        &&& self.head_can_use_get == other.head_can_use_get
        &&& self.redirect_trailing_slash == other.redirect_trailing_slash
        &&& self.redirect_clean_path == other.redirect_clean_path
        &&& self.redirect_behavior == other.redirect_behavior
        &&& self.redirect_method_behavior == other.redirect_method_behavior
        &&& self.remove_catch_all_trailing_slash == other.remove_catch_all_trailing_slash
        &&& self.escape_added_routes == other.escape_added_routes
    }

    /// Enters one pattern.
    fn enter(&mut self, method: Method, path: &str, value: Arc<V>, add_slash: bool) -> (r: Result<
        (),
        RouteError,
    >)
        requires
            old(self).wf(),
        ensures
            ({
                let r0 = Registration {
                    method: method@,
                    value: *value,
                    head_can_use_get: old(self).head_can_use_get,
                    add_slash,
                };
                match refused(old(self).tree(), path@, method@) {
                    None => r is Ok && final(self).tree() == entered(old(self).tree(), path@, r0),
                    Some(e) => r == Err::<(), RouteError>(e) && final(self).tree() == old(
                        self,
                    ).tree(),
                }
            }),
            final(self).wf(),
            final(self).same_but_routes(old(self)),
    {
        let stripped = strip_start_slash(path);
        match self.root.refusal(stripped, &None, false, &method) {
            Some(e) => Err(e),
            None => {
                let handler = Handler {
                    method,
                    value,
                    implicit_head: false,
                    head_can_use_get: self.head_can_use_get,
                    add_slash,
                };
                proof {
                    law_grown_strict(
                        self.root.tree(),
                        stripped@,
                        None,
                        false,
                        handler.registration(),
                    );
                    crate::shape::lemma_grown_wf(
                        self.root.tree(),
                        stripped@,
                        None,
                        false,
                        handler.registration(),
                    );
                }
                self.root.add_path(stripped, None, false, handler);
                Ok(())
            },
        }
    }

    /// Adds a route. A pattern that is a path in a URI as it is, is entered once.
    pub fn add_route(&mut self, method: Method, pattern: &str, handler: V) -> (r: Result<
        (),
        RouteError,
    >)
        requires
            old(self).wf(),
        ensures
            ({
                let outcome = with_route(
                    old(self).tree(),
                    pattern@,
                    method@,
                    handler,
                    old(self).rules(),
                );
                &&& final(self).tree() == outcome.0
                &&& match outcome.1 {
                    None => r is Ok,
                    Some(e) => r == Err::<(), RouteError>(e),
                }
                &&& is_plain_path(trimmed(pattern@, old(self).rules())) ==> outcome == with_route(
                    old(self).tree(),
                    pattern@,
                    method@,
                    handler,
                    (RouteRules { escape_added_routes: false, ..old(self).rules() }),
                )
            }),
            final(self).wf(),
            final(self).same_but_routes(old(self)),
    {
        if pattern.is_empty() {
            return Err(RouteError::EmptyPath);
        }
        let len: usize = pattern.unicode_len();
        let add_slash = len > 1 && pattern.get_char(len - 1) == '/' && self.redirect_trailing_slash;
        let path = if add_slash {
            strip_end_slash(pattern)
        } else {
            pattern
        };
        let value: Arc<V> = Arc::new(handler);
        let first = self.enter(method.clone(), path, crate::method::share(&value), add_slash);
        match first {
            Err(e) => Err(e),
            Ok(()) => {
                if !self.escape_added_routes {
                    return Ok(());
                }
                match uri_path(path) {
                    None => Err(RouteError::InvalidUri),
                    Some(escaped) => {
                        if same_text(escaped.as_str(), path) {
                            Ok(())
                        } else {
                            self.enter(method, escaped.as_str(), value, add_slash)
                        }
                    },
                }
            },
        }
    }

    /// Attaches the routes of another router below a path, which `check_scope` must accept.
    pub fn extend(&mut self, path: &str, routes: Treemux<V>) -> (r: Result<(), RouteError>)
        requires
            old(self).wf(),
            routes.wf(),
            scope_error(path@) is None,
        ensures
            ({
                let outcome = with_routes(old(self).tree(), Seq::empty(), path@, routes.tree());
                &&& final(self).tree() == outcome.0
                &&& match outcome.1 {
                    None => r is Ok,
                    Some(e) => r == Err::<(), RouteError>(e),
                }
            }),
            final(self).wf(),
            final(self).same_but_routes(old(self)),
    {
        proof {
            reveal_strlit("");
            assert(""@ =~= Seq::<char>::empty());
        }
        self.extend_under("", path, routes)
    }

    /// Attaches the routes of another router below a path behind a prefix.
    pub(crate) fn extend_under(&mut self, prefix: &str, path: &str, routes: Treemux<V>) -> (r: Result<
        (),
        RouteError,
    >)
        requires
            old(self).wf(),
            routes.wf(),
            scope_error(path@) is None,
        ensures
            ({
                let outcome = with_routes(old(self).tree(), prefix@, path@, routes.tree());
                &&& final(self).tree() == outcome.0
                &&& match outcome.1 {
                    None => r is Ok,
                    Some(e) => r == Err::<(), RouteError>(e),
                }
            }),
            final(self).wf(),
            final(self).same_but_routes(old(self)),
    {
        let at: String = scope_prefix(prefix, path);
        proof {
            law_grafted_strict(
                self.tree(),
                without_start_slash(at@),
                None,
                false,
                routes.tree(),
            );
            lemma_grafted_wf(
                self.tree(),
                without_start_slash(at@),
                None,
                false,
                routes.tree(),
            );
        }
        self.root.try_extend(Cow::Owned(at), routes.root)
    }

    /// A group of routes with a common prefix, which `check_scope` must accept.
    pub fn scope<'b>(&'b mut self, path: &str) -> (r: GroupBuilder<'b, V>)
        requires
            scope_error(path@) is None,
        ensures
            r.prefix@ == scoped(Seq::empty(), path@),
            *r.inner == *old(self),
            *final(self) == *final(r.inner),
    {
        proof {
            reveal_strlit("");
            assert(""@ =~= Seq::<char>::empty());
        }
        GroupBuilder { prefix: scope_prefix("", path), inner: self }
    }

    /// Registers a handler for when there is no match.
    pub fn not_found(&mut self, handler: V)
        ensures
            *final(self) == (Builder { handle_not_found: Some(handler), ..*old(self) }),
    {
        self.handle_not_found = Some(handler);
    }

    /// Registers a handler for when the path matches a different method than the requested one.
    pub fn method_not_allowed(&mut self, handler: V)
        ensures
            *final(self) == (Builder { handle_method_not_allowed: Some(handler), ..*old(self) }),
    {
        self.handle_method_not_allowed = Some(handler);
    }

    /// Registers a handler for `OPTIONS` requests to paths that other methods are registered for.
    pub fn global_options(&mut self, handler: V)
        ensures
            *final(self) == (Builder { handle_global_options: Some(handler), ..*old(self) }),
    {
        self.handle_global_options = Some(handler);
    }

    /// The router.
    pub fn build(self) -> (r: Treemux<V>)
        ensures
            r == built(self),
    {
        Treemux {
            root: self.root,
            handle_not_found: self.handle_not_found,
            handle_method_not_allowed: self.handle_method_not_allowed,
            handle_global_options: self.handle_global_options,
            head_can_use_get: self.head_can_use_get,
            redirect_trailing_slash: self.redirect_trailing_slash,
            redirect_clean_path: self.redirect_clean_path,
            redirect_behavior: self.redirect_behavior,
            redirect_method_behavior: self.redirect_method_behavior,
            remove_catch_all_trailing_slash: self.remove_catch_all_trailing_slash,
            escape_added_routes: self.escape_added_routes,
        }
    }
}

impl<V> Default for Builder<V> {
    fn default() -> (r: Self)
        ensures
            r.wf(),
            r.tree() == blank_tree::<V>("/"@),
            built(r).has_defaults(),
    {
        proof {
            reveal_strlit("/");
            assert("/"@ =~= seq!['/']);
        }
        Builder {
            root: Node::new(),
            handle_not_found: None,
            handle_method_not_allowed: None,
            handle_global_options: None,
            head_can_use_get: true,
            redirect_trailing_slash: true,
            redirect_clean_path: true,
            redirect_behavior: Some(RedirectBehavior::Redirect301),
            redirect_method_behavior: MethodMap::new(),
            remove_catch_all_trailing_slash: false,
            escape_added_routes: false,
        }
    }
}

/// The router that a builder makes.
pub open spec fn built<V>(b: Builder<V>) -> Treemux<V> {
    Treemux {
        root: b.root,
        handle_not_found: b.handle_not_found,
        handle_method_not_allowed: b.handle_method_not_allowed,
        handle_global_options: b.handle_global_options,
        head_can_use_get: b.head_can_use_get,
        redirect_trailing_slash: b.redirect_trailing_slash,
        redirect_clean_path: b.redirect_clean_path,
        redirect_behavior: b.redirect_behavior,
        redirect_method_behavior: b.redirect_method_behavior,
        remove_catch_all_trailing_slash: b.remove_catch_all_trailing_slash,
        escape_added_routes: b.escape_added_routes,
    }
}

/// The prefix of a group inside a group.
pub open spec fn scoped(prefix: Seq<char>, path: Seq<char>) -> Seq<char> {
    without_end_slash(prefix + path)
}

/// The tree after an attempt to attach other routes below a path behind a prefix, and why it was
/// refused.
pub open spec fn with_routes<V>(
    t: Tree<V>,
    prefix: Seq<char>,
    path: Seq<char>,
    routes: Tree<V>,
) -> (Tree<V>, Option<RouteError>) {
    let at = scoped(prefix, path);
    if extension_refused(t, at, routes) is Some {
        (t, extension_refused(t, at, routes))
    } else {
        (extended(t, at, routes), None)
    }
}

/// Joins a prefix and a path, and drops a trailing slash.
pub fn scope_prefix(prefix: &str, path: &str) -> (r: String)
    ensures
        r@ == scoped(prefix@, path@),
{
    let whole: String = join(prefix, path);
    strip_end_slash(whole.as_str()).to_owned()
}

/// What routes are added to.
pub trait RouterBuilder<V> {
    /// Whether routes can be added.
    spec fn valid(&self) -> bool;

    /// The routes that were added.
    spec fn routes(&self) -> Tree<V>;

    /// Whether a path can be the start of a route.
    spec fn admits(&self, path: Seq<char>) -> bool;

    /// The routes after an attempt to add one, and why it was refused.
    spec fn adding(&self, method: Seq<char>, path: Seq<char>, handler: V) -> (
        Tree<V>,
        Option<RouteError>,
    );

    /// Whether everything but the routes is as in another one.
    spec fn keeps(&self, other: &Self) -> bool;

    /// Registers a handler for requests of a method to a path, which must start with a slash.
    fn handle(&mut self, method: Method, path: &str, handler: V) -> (r: Result<(), RouteError>)
        requires
            old(self).valid(),
            old(self).admits(path@),
        ensures
            final(self).valid(),
            final(self).keeps(old(self)),
            final(self).routes() == old(self).adding(method@, path@, handler).0,
            match old(self).adding(method@, path@, handler).1 {
                None => r is Ok,
                Some(e) => r == Err::<(), RouteError>(e),
            },
    ;

    /// Registers a handler for `GET` requests.
    fn get(&mut self, path: &str, handler: V) -> (r: Result<(), RouteError>)
        requires
            old(self).valid(),
            old(self).admits(path@),
        ensures
            final(self).valid(),
            final(self).keeps(old(self)),
            final(self).routes() == old(self).adding("GET"@, path@, handler).0,
            match old(self).adding("GET"@, path@, handler).1 {
                None => r is Ok,
                Some(e) => r == Err::<(), RouteError>(e),
            },
    {
        self.handle(Method::GET, path, handler)
    }

    /// Registers a handler for `HEAD` requests.
    fn head(&mut self, path: &str, handler: V) -> (r: Result<(), RouteError>)
        requires
            old(self).valid(),
            old(self).admits(path@),
        ensures
            final(self).valid(),
            final(self).keeps(old(self)),
            final(self).routes() == old(self).adding("HEAD"@, path@, handler).0,
            match old(self).adding("HEAD"@, path@, handler).1 {
                None => r is Ok,
                Some(e) => r == Err::<(), RouteError>(e),
            },
    {
        self.handle(Method::HEAD, path, handler)
    }

    /// Registers a handler for `OPTIONS` requests.
    fn options(&mut self, path: &str, handler: V) -> (r: Result<(), RouteError>)
        requires
            old(self).valid(),
            old(self).admits(path@),
        ensures
            final(self).valid(),
            final(self).keeps(old(self)),
            final(self).routes() == old(self).adding("OPTIONS"@, path@, handler).0,
            match old(self).adding("OPTIONS"@, path@, handler).1 {
                None => r is Ok,
                Some(e) => r == Err::<(), RouteError>(e),
            },
    {
        self.handle(Method::OPTIONS, path, handler)
    }

    /// Registers a handler for `POST` requests.
    fn post(&mut self, path: &str, handler: V) -> (r: Result<(), RouteError>)
        requires
            old(self).valid(),
            old(self).admits(path@),
        ensures
            final(self).valid(),
            final(self).keeps(old(self)),
            final(self).routes() == old(self).adding("POST"@, path@, handler).0,
            match old(self).adding("POST"@, path@, handler).1 {
                None => r is Ok,
                Some(e) => r == Err::<(), RouteError>(e),
            },
    {
        self.handle(Method::POST, path, handler)
    }

    /// Registers a handler for `PUT` requests.
    fn put(&mut self, path: &str, handler: V) -> (r: Result<(), RouteError>)
        requires
            old(self).valid(),
            old(self).admits(path@),
        ensures
            final(self).valid(),
            final(self).keeps(old(self)),
            final(self).routes() == old(self).adding("PUT"@, path@, handler).0,
            match old(self).adding("PUT"@, path@, handler).1 {
                None => r is Ok,
                Some(e) => r == Err::<(), RouteError>(e),
            },
    {
        self.handle(Method::PUT, path, handler)
    }

    /// Registers a handler for `PATCH` requests.
    fn patch(&mut self, path: &str, handler: V) -> (r: Result<(), RouteError>)
        requires
            old(self).valid(),
            old(self).admits(path@),
        ensures
            final(self).valid(),
            final(self).keeps(old(self)),
            final(self).routes() == old(self).adding("PATCH"@, path@, handler).0,
            match old(self).adding("PATCH"@, path@, handler).1 {
                None => r is Ok,
                Some(e) => r == Err::<(), RouteError>(e),
            },
    {
        self.handle(Method::PATCH, path, handler)
    }

    /// Registers a handler for `DELETE` requests.
    fn delete(&mut self, path: &str, handler: V) -> (r: Result<(), RouteError>)
        requires
            old(self).valid(),
            old(self).admits(path@),
        ensures
            final(self).valid(),
            final(self).keeps(old(self)),
            final(self).routes() == old(self).adding("DELETE"@, path@, handler).0,
            match old(self).adding("DELETE"@, path@, handler).1 {
                None => r is Ok,
                Some(e) => r == Err::<(), RouteError>(e),
            },
    {
        self.handle(Method::DELETE, path, handler)
    }
}

impl<V> RouterBuilder<V> for Builder<V> {
    open spec fn valid(&self) -> bool {
        self.wf()
    }

    open spec fn routes(&self) -> Tree<V> {
        self.tree()
    }

    open spec fn admits(&self, path: Seq<char>) -> bool {
        path_error(path) is None
    }

    open spec fn adding(&self, method: Seq<char>, path: Seq<char>, handler: V) -> (
        Tree<V>,
        Option<RouteError>,
    ) {
        with_route(self.tree(), path, method, handler, self.rules())
    }

    open spec fn keeps(&self, other: &Self) -> bool {
        self.same_but_routes(other)
    }

    fn handle(&mut self, method: Method, path: &str, handler: V) -> (r: Result<(), RouteError>) {
        self.add_route(method, path, handler)
    }
}

/// A group of routes with a common prefix, which are added to a router under construction.
pub struct GroupBuilder<'a, V> {
    pub prefix: String,
    pub inner: &'a mut Builder<V>,
}

impl<'a, V> GroupBuilder<'a, V> {
    /// The router as it is now.
    pub open spec fn builder(self) -> Builder<V> {
        *self.inner
    }

    /// A group inside the group. `check_scope` must accept the path.
    pub fn scope(self, path: &str) -> (r: GroupBuilder<'a, V>)
        requires
            scope_error(path@) is None,
        ensures
            r.prefix@ == scoped(self.prefix@, path@),
            r.builder() == self.builder(),
            *final(r.inner) == *final(self.inner),
    {
        GroupBuilder { prefix: scope_prefix(self.prefix.as_str(), path), inner: self.inner }
    }

    /// Attaches the routes of another router below a path of the group, which `check_scope` must
    /// accept.
    pub fn extend(&mut self, path: &str, routes: Treemux<V>) -> (r: Result<(), RouteError>)
        requires
            old(self).builder().wf(),
            routes.wf(),
            scope_error(path@) is None,
        ensures
            ({
                let outcome = with_routes(
                    old(self).builder().tree(),
                    old(self).prefix@,
                    path@,
                    routes.tree(),
                );
                &&& final(self).builder().tree() == outcome.0
                &&& match outcome.1 {
                    None => r is Ok,
                    Some(e) => r == Err::<(), RouteError>(e),
                }
            }),
            final(self).builder().wf(),
            final(self).builder().same_but_routes(&old(self).builder()),
            final(self).prefix@ == old(self).prefix@,
            *final(final(self).inner) == *final(old(self).inner),
    {
        self.inner.extend_under(self.prefix.as_str(), path, routes)
    }
}

impl<'a, V> RouterBuilder<V> for GroupBuilder<'a, V> {
    open spec fn valid(&self) -> bool {
        self.builder().wf()
    }

    open spec fn routes(&self) -> Tree<V> {
        self.builder().tree()
    }

    open spec fn admits(&self, path: Seq<char>) -> bool {
        path_error(self.prefix@ + path) is None
    }

    open spec fn adding(&self, method: Seq<char>, path: Seq<char>, handler: V) -> (
        Tree<V>,
        Option<RouteError>,
    ) {
        with_route(
            self.builder().tree(),
            self.prefix@ + path,
            method,
            handler,
            self.builder().rules(),
        )
    }

    open spec fn keeps(&self, other: &Self) -> bool {
        self.prefix@ == other.prefix@ && self.builder().same_but_routes(&other.builder())
    }

    fn handle(&mut self, method: Method, path: &str, handler: V) -> (r: Result<(), RouteError>)
        ensures
            *final(final(self).inner) == *final(old(self).inner),
    {
        let whole: String = join(self.prefix.as_str(), path);
        self.inner.handle(method, whole.as_str(), handler)
    }

    fn get(&mut self, path: &str, handler: V) -> (r: Result<(), RouteError>)
        ensures
            *final(final(self).inner) == *final(old(self).inner),
    {
        self.handle(Method::GET, path, handler)
    }

    fn head(&mut self, path: &str, handler: V) -> (r: Result<(), RouteError>)
        ensures
            *final(final(self).inner) == *final(old(self).inner),
    {
        self.handle(Method::HEAD, path, handler)
    }

    fn options(&mut self, path: &str, handler: V) -> (r: Result<(), RouteError>)
        ensures
            *final(final(self).inner) == *final(old(self).inner),
    {
        self.handle(Method::OPTIONS, path, handler)
    }

    fn post(&mut self, path: &str, handler: V) -> (r: Result<(), RouteError>)
        ensures
            *final(final(self).inner) == *final(old(self).inner),
    {
        self.handle(Method::POST, path, handler)
    }

    fn put(&mut self, path: &str, handler: V) -> (r: Result<(), RouteError>)
        ensures
            *final(final(self).inner) == *final(old(self).inner),
    {
        self.handle(Method::PUT, path, handler)
    }

    fn patch(&mut self, path: &str, handler: V) -> (r: Result<(), RouteError>)
        ensures
            *final(final(self).inner) == *final(old(self).inner),
    {
        self.handle(Method::PATCH, path, handler)
    }

    fn delete(&mut self, path: &str, handler: V) -> (r: Result<(), RouteError>)
        ensures
            *final(final(self).inner) == *final(old(self).inner),
    {
        self.handle(Method::DELETE, path, handler)
    }
}

} // verus!
