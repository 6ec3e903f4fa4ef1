//! The router: which handler answers a request.

use vstd::prelude::*;
use vstd::std_specs::convert::FromSpecImpl;

use crate::builder::{built, Builder, RedirectBehavior};
use crate::decode::all_decoded;
use crate::method::{methods_of, names_of, value_of, AllowedMethods, Method, MethodMap};
use crate::model::{blank_tree, find, Tree};
use crate::params::{zipped, Params};
use crate::text::{join, strip_end_slash, without_start_slash};
use crate::tree::{Match, Node};

verus! {

/// A router.
#[derive(Debug)]
pub struct Treemux<V> {
    /// The routes.
    pub root: Node<V>,
    /// Handles requests whose path no route matches.
    pub handle_not_found: Option<V>,
    /// Handles requests whose path is matched, but not with their method.
    pub handle_method_not_allowed: Option<V>,
    /// Handles `OPTIONS` requests whose path is matched, but not with that method.
    pub handle_global_options: Option<V>,
    pub head_can_use_get: bool,
    pub redirect_trailing_slash: bool,
    pub redirect_clean_path: bool,
    pub redirect_behavior: Option<RedirectBehavior>,
    pub redirect_method_behavior: MethodMap<RedirectBehavior>,
    pub remove_catch_all_trailing_slash: bool,
    pub escape_added_routes: bool,
}

impl<V> Treemux<V> {
    /// The routes.
    pub open spec fn tree(&self) -> Tree<V> {
        self.root.tree()
    }

    /// The routes form a tree whose root is a slash.
    pub open spec fn wf(&self) -> bool {
        &&& self.tree().strict()
        &&& self.tree().path == seq!['/']
    }

    /// Whether no handler but those of routes is set, and every setting is as a builder has it at
    /// first.
    pub open spec fn has_defaults(&self) -> bool {
        &&& self.handle_not_found is None
        &&& self.handle_method_not_allowed is None
        &&& self.handle_global_options is None
        &&& self.head_can_use_get
        &&& self.redirect_trailing_slash
        &&& self.redirect_clean_path
        &&& self.redirect_behavior == Some(RedirectBehavior::Redirect301)
        &&& self.redirect_method_behavior@.len() == 0
        &&& !self.remove_catch_all_trailing_slash
        &&& !self.escape_added_routes
    }

    /// A router with these routes.
    pub fn new(root: Node<V>) -> (r: Self)
        ensures
            r.root == root,
            r.has_defaults(),
    {
        let mut settings: Builder<V> = Builder::default();
        settings.root = root;
        settings.build()
    }

    /// A router under construction, without routes.
    pub fn builder() -> (r: Builder<V>)
        ensures
            r.wf(),
            r.tree() == blank_tree::<V>("/"@),
            built(r).has_defaults(),
    {
        Builder::default()
    }

    /// Looks up the handler for a method and a path. The error says whether to ask for the same path
    /// with a trailing slash, which is never the case.
    pub fn lookup<'b>(&'b self, method: &Method, path: &str) -> (r: Result<(&'b V, Params), bool>)
        requires
            self.wf(),
        ensures
            match find(self.tree(), method@, without_start_slash(path@)) {
                Some(h) => match h.value {
                    Some(value) => {
                        &&& r is Ok
                        &&& *r->Ok_0.0 == value
                        &&& r->Ok_0.1@ == zipped(h.names, all_decoded(h.params))
                    },
                    None => r == Err::<(&V, Params), bool>(false),
                },
                None => r == Err::<(&V, Params), bool>(false),
            },
    {
        match self.root.search(method, path) {
            Some(found) => match found.value {
                Some(value) => Ok((value, found.parameters)),
                None => Err(false),
            },
            None => Err(false),
        }
    }

    /// The path that is looked up for a request.
    pub fn lookup_path<'b>(&self, path: &'b str) -> (r: &'b str)
        ensures
            r@ == looked_up(*self, path@),
    {
        if self.redirect_trailing_slash && has_trailing_slash(path) {
            strip_end_slash(path)
        } else {
            path
        }
    }

    /// How a request of the method is sent to another path, if it is.
    pub fn redirect_for(&self, method: &Method) -> (r: Option<RedirectBehavior>)
        ensures
            r == redirect_of(*self, method@),
    {
        let chosen: Option<RedirectBehavior> = match self.redirect_method_behavior.get(method) {
            Some(behavior) => Some(*behavior),
            None => self.redirect_behavior,
        };
        match chosen {
            Some(behavior) => {
                if behavior == RedirectBehavior::UseHandler {
                    None
                } else {
                    Some(behavior)
                }
            },
            None => None,
        }
    }

    /// How a request is answered, given what was found for the path that is looked up and, if that
    /// was nothing, for the cleaned path.
    pub fn answer<'b>(
        &'b self,
        method: &Method,
        path: &str,
        query: Option<&str>,
        found: Option<Match<'b, V>>,
        clean_path: &str,
        found_clean: Option<Match<'b, V>>,
    ) -> (r: Action<'b, V>)
        ensures
            r.view() == answered(
                *self,
                method@,
                path@,
                text_of(query),
                seen(found),
                clean_path@,
                seen(found_clean),
            ),
    {
        match found {
            Some(m) => self.answer_match(method, path, query, m),
            None => {
                if !self.redirect_clean_path {
                    return Action::NotFound { handler: self.handle_not_found.as_ref() };
                }
                match found_clean {
                    None => Action::NotFound { handler: self.handle_not_found.as_ref() },
                    Some(m) => match self.redirect_for(method) {
                        Some(behavior) => Action::Redirect {
                            status: redirect_status(behavior),
                            location: redirect_location(clean_path, query),
                        },
                        None => self.answer_match(method, path, query, m),
                    },
                }
            },
        }
    }

    /// How a request is answered for which a route was found.
    fn answer_match<'b>(
        &'b self,
        method: &Method,
        path: &str,
        query: Option<&str>,
        found: Match<'b, V>,
    ) -> (r: Action<'b, V>)
        ensures
            r.view() == answered_match(
                *self,
                method@,
                path@,
                text_of(query),
                seen_match(found),
            ),
    {
        let handler: &'b V = match found.value {
            Some(handler) => handler,
            None => {
                match &self.handle_global_options {
                    Some(handler) => {
                        if method.same(&Method::OPTIONS) {
                            return Action::GlobalOptions { handler };
                        }
                    },
                    None => {},
                }
                return Action::MethodNotAllowed {
                    handler: self.handle_method_not_allowed.as_ref(),
                    allowed: AllowedMethods(found.leaf_handler.keys()),
                };
            },
        };
        if (!found.is_catch_all || self.remove_catch_all_trailing_slash) && has_trailing_slash(path)
            != found.add_slash && self.redirect_trailing_slash {
            match self.redirect_for(method) {
                Some(behavior) => {
                    let bare = self.lookup_path(path);
                    let target: String = if found.add_slash {
                        join(bare, "/")
                    } else {
                        bare.to_owned()
                    };
                    return Action::Redirect {
                        status: redirect_status(behavior),
                        location: redirect_location(target.as_str(), query),
                    };
                },
                None => {},
            }
        }
        Action::Call { handler, parameters: found.parameters }
    }

    /// How a request is answered. The cleaned path is that of the path that is looked up.
    pub fn respond<'b>(
        &'b self,
        method: &Method,
        path: &str,
        query: Option<&str>,
        clean_path: &str,
    ) -> (r: Action<'b, V>)
        requires
            self.wf(),
        ensures
            r.view() == response(*self, method@, path@, text_of(query), clean_path@),
    {
        let found = self.root.search(method, self.lookup_path(path));
        let found_clean = if found.is_none() && self.redirect_clean_path {
            self.root.search(method, clean_path)
        } else {
            None
        };
        self.answer(method, path, query, found, clean_path, found_clean)
    }
}

impl<V> Default for Treemux<V> {
    fn default() -> (r: Self)
        ensures
            r.wf(),
            r.tree() == blank_tree::<V>("/"@),
            r.has_defaults(),
    {
        Builder::default().build()
    }
}

impl<V> From<Builder<V>> for Treemux<V> {
    fn from(b: Builder<V>) -> (r: Self)
        ensures
            r == built(b),
    {
        b.build()
    }
}

impl<V> FromSpecImpl<Builder<V>> for Treemux<V> {
    open spec fn obeys_from_spec() -> bool {
        false
    }

    open spec fn from_spec(b: Builder<V>) -> Treemux<V> {
        arbitrary()
    }
}

/// What is to be done with a request.
#[derive(Debug)]
#[allow(inconsistent_fields)]
pub enum Action<'a, V> {
    /// Call the handler of a route.
    Call { handler: &'a V, parameters: Params },
    /// Call the handler for `OPTIONS` requests.
    GlobalOptions { handler: &'a V },
    /// Say which methods the path accepts, by the handler for that if there is one.
    MethodNotAllowed { handler: Option<&'a V>, allowed: AllowedMethods },
    /// Say that nothing was found, by the handler for that if there is one.
    NotFound { handler: Option<&'a V> },
    /// Send the client elsewhere.
    Redirect { status: u16, location: String },
}

/// What is to be done with a request, as a mathematical value.
#[allow(inconsistent_fields)]
pub enum Answer<V> {
    Call { value: V, params: Seq<(Seq<char>, Seq<char>)> },
    GlobalOptions { value: V },
    MethodNotAllowed { value: Option<V>, allowed: Seq<Seq<char>> },
    NotFound { value: Option<V> },
    Redirect { status: u16, location: Seq<char> },
}

/// The value behind a reference.
pub open spec fn referred<V>(value: Option<&V>) -> Option<V> {
    match value {
        Some(v) => Some(*v),
        None => None,
    }
}

/// The text behind a reference.
pub open spec fn text_of(text: Option<&str>) -> Option<Seq<char>> {
    match text {
        Some(t) => Some(t@),
        None => None,
    }
}

impl<'a, V> Action<'a, V> {
    /// The action as a mathematical value.
    pub open spec fn view(self) -> Answer<V> {
        match self {
            Action::Call { handler, parameters } => Answer::Call {
                value: *handler,
                params: parameters@,
            },
            Action::GlobalOptions { handler } => Answer::GlobalOptions { value: *handler },
            Action::MethodNotAllowed { handler, allowed } => Answer::MethodNotAllowed {
                value: referred(handler),
                allowed: names_of(allowed.0@),
            },
            Action::NotFound { handler } => Answer::NotFound { value: referred(handler) },
            Action::Redirect { status, location } => Answer::Redirect {
                status,
                location: location@,
            },
        }
    }
}

/// What an answer depends on of what was found.
pub struct Found<V> {
    /// The handler for the method.
    pub value: Option<V>,
    /// The methods that the route has handlers for.
    pub methods: Seq<Seq<char>>,
    pub add_slash: bool,
    pub is_catch_all: bool,
    pub params: Seq<(Seq<char>, Seq<char>)>,
}

/// What is seen of a match.
pub open spec fn seen_match<'a, V>(m: Match<'a, V>) -> Found<V> {
    Found {
        value: referred(m.value),
        methods: methods_of(m.leaf_handler@),
        add_slash: m.add_slash,
        is_catch_all: m.is_catch_all,
        params: m.parameters@,
    }
}

/// What is seen of a match, if there is one.
pub open spec fn seen<'a, V>(m: Option<Match<'a, V>>) -> Option<Found<V>> {
    match m {
        Some(found) => Some(seen_match(found)),
        None => None,
    }
}

/// What is seen of the lookup of a path.
pub open spec fn seen_in<V>(t: Tree<V>, method: Seq<char>, path: Seq<char>) -> Option<Found<V>> {
    match find(t, method, without_start_slash(path)) {
        Some(h) => Some(
            Found {
                value: h.value,
                methods: methods_of(h.leaf.handlers),
                add_slash: h.leaf.add_slash,
                is_catch_all: h.leaf.is_catch_all(),
                params: zipped(h.names, all_decoded(h.params)),
            },
        ),
        None => None,
    }
}

/// Whether a path ends in a slash that could be dropped.
pub open spec fn trails_slash(path: Seq<char>) -> bool {
    path.len() > 1 && path.last() == '/'
}

/// The path that is looked up for a request.
pub open spec fn looked_up<V>(m: Treemux<V>, path: Seq<char>) -> Seq<char> {
    if trails_slash(path) && m.redirect_trailing_slash {
        path.drop_last()
    } else {
        path
    }
}

/// How requests of a method are sent to another path, if they are.
pub open spec fn redirect_of<V>(m: Treemux<V>, method: Seq<char>) -> Option<RedirectBehavior> {
    let chosen = match value_of(m.redirect_method_behavior@, method) {
        Some(behavior) => Some(behavior),
        None => m.redirect_behavior,
    };
    if chosen == Some(RedirectBehavior::UseHandler) {
        None
    } else {
        chosen
    }
}

/// The status of a redirect.
pub open spec fn status_of(behavior: RedirectBehavior) -> u16 {
    match behavior {
        RedirectBehavior::Redirect307 => 307,
        RedirectBehavior::Redirect308 => 308,
        _ => 301,
    }
}

/// Where a redirect leads: the path, with the query of the request.
pub open spec fn location_of(path: Seq<char>, query: Option<Seq<char>>) -> Seq<char> {
    match query {
        Some(q) => path + "?"@ + q,
        None => path,
    }
}

/// The path that a request is sent to because of a trailing slash.
pub open spec fn slash_target<V>(m: Treemux<V>, path: Seq<char>, add_slash: bool) -> Seq<char> {
    if add_slash {
        looked_up(m, path) + "/"@
    } else {
        looked_up(m, path)
    }
}

/// Whether a request is to be sent to the same path with or without a trailing slash.
pub open spec fn needs_slash_redirect<V>(m: Treemux<V>, path: Seq<char>, f: Found<V>) -> bool {
    &&& !f.is_catch_all || m.remove_catch_all_trailing_slash
    &&& trails_slash(path) != f.add_slash
    &&& m.redirect_trailing_slash
}

/// How a request is answered for which a route was found.
pub open spec fn answered_match<V>(
    m: Treemux<V>,
    method: Seq<char>,
    path: Seq<char>,
    query: Option<Seq<char>>,
    f: Found<V>,
) -> Answer<V> {
    match f.value {
        None => if method == "OPTIONS"@ && m.handle_global_options is Some {
            Answer::GlobalOptions { value: m.handle_global_options->0 }
        } else {
            Answer::MethodNotAllowed { value: m.handle_method_not_allowed, allowed: f.methods }
        },
        Some(value) => match redirect_of(m, method) {
            Some(behavior) => if needs_slash_redirect(m, path, f) {
                Answer::Redirect {
                    status: status_of(behavior),
                    location: location_of(slash_target(m, path, f.add_slash), query),
                }
            } else {
                Answer::Call { value, params: f.params }
            },
            None => Answer::Call { value, params: f.params },
        },
    }
}

/// How a request is answered, given what was found for its path and for the cleaned path.
pub open spec fn answered<V>(
    m: Treemux<V>,
    method: Seq<char>,
    path: Seq<char>,
    query: Option<Seq<char>>,
    found: Option<Found<V>>,
    clean_path: Seq<char>,
    found_clean: Option<Found<V>>,
) -> Answer<V> {
    match found {
        Some(f) => answered_match(m, method, path, query, f),
        None => if !m.redirect_clean_path {
            Answer::NotFound { value: m.handle_not_found }
        } else {
            match found_clean {
                None => Answer::NotFound { value: m.handle_not_found },
                Some(f) => match redirect_of(m, method) {
                    Some(behavior) => Answer::Redirect {
                        status: status_of(behavior),
                        location: location_of(clean_path, query),
                    },
                    None => answered_match(m, method, path, query, f),
                },
            }
        },
    }
}

/// How a request is answered.
pub open spec fn response<V>(
    m: Treemux<V>,
    method: Seq<char>,
    path: Seq<char>,
    query: Option<Seq<char>>,
    clean_path: Seq<char>,
) -> Answer<V> {
    answered(
        m,
        method,
        path,
        query,
        seen_in(m.tree(), method, looked_up(m, path)),
        clean_path,
        seen_in(m.tree(), method, clean_path),
    )
}

/// Whether a path ends in a slash that could be dropped.
pub fn has_trailing_slash(path: &str) -> (r: bool)
    ensures
        r == trails_slash(path@),
{
    let len: usize = path.unicode_len();
    len > 1 && path.get_char(len - 1) == '/'
}

/// The status of a redirect.
pub fn redirect_status(behavior: RedirectBehavior) -> (r: u16)
    ensures
        r == status_of(behavior),
{
    match behavior {
        RedirectBehavior::Redirect307 => 307,
        RedirectBehavior::Redirect308 => 308,
        _ => 301,
    }
}

/// Where a redirect leads.
pub fn redirect_location(path: &str, query: Option<&str>) -> (r: String)
    ensures
        r@ == location_of(path@, text_of(query)),
{
    match query {
        Some(q) => join(join(path, "?").as_str(), q),
        None => path.to_owned(),
    }
}

/// The content type of a redirect: that of the request, or else that of a page.
pub fn redirect_content_type(requested: Option<String>) -> (r: String)
    ensures
        r@ == (match requested {
            Some(t) => t@,
            None => "text/html; charset=utf-8"@,
        }),
{
    match requested {
        Some(t) => t,
        None => "text/html; charset=utf-8".to_owned(),
    }
}

} // verus!
