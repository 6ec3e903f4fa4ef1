//! What a router answers, said of the request and of the routes.

use vstd::prelude::*;

use crate::builder::RedirectBehavior;
use crate::decode::percent_decoded;
use crate::method::{lemma_entry_at, value_of};
use crate::model::{find, has_value, Hit};
use crate::mux::{
    location_of, redirect_of, response, seen, seen_match, status_of, text_of, Action, Answer,
    Treemux,
};
use crate::mux_laws::law_allowed_methods_are_handled;
use crate::tree::Match;

verus! {

/// How requests are redirected is what the table says for their method, and where it says nothing
/// what the router says, whatever the method is. There is no redirect only where that is not set or
/// is to use the handler.
pub proof fn law_redirect_by_table<V>(m: Treemux<V>, method: Seq<char>, b: RedirectBehavior)
    requires
        value_of(m.redirect_method_behavior@, method) == Some(b) || value_of(
            m.redirect_method_behavior@,
            method,
        ) is None && m.redirect_behavior == Some(b),
    ensures
        redirect_of(m, method) == match b {
            RedirectBehavior::Redirect301 => Some(RedirectBehavior::Redirect301),
            RedirectBehavior::Redirect307 => Some(RedirectBehavior::Redirect307),
            RedirectBehavior::Redirect308 => Some(RedirectBehavior::Redirect308),
            RedirectBehavior::UseHandler => None,
        },
{
}

/// Where neither the table nor the router says how, requests are not redirected.
pub proof fn law_no_redirect_unless_set<V>(m: Treemux<V>, method: Seq<char>)
    requires
        value_of(m.redirect_method_behavior@, method) is None,
        m.redirect_behavior is None,
    ensures
        redirect_of(m, method) is None,
{
}

/// Two methods of which the table says the same, or nothing, are redirected in the same way.
pub proof fn law_methods_are_redirected_alike<V>(m: Treemux<V>, a: Seq<char>, b: Seq<char>)
    requires
        value_of(m.redirect_method_behavior@, a) == value_of(m.redirect_method_behavior@, b),
    ensures
        redirect_of(m, a) == redirect_of(m, b),
{
}

/// With an empty table every method is redirected as the router says.
pub proof fn law_empty_table<V>(m: Treemux<V>, method: Seq<char>)
    requires
        m.redirect_method_behavior@.len() == 0,
    ensures
        m.redirect_behavior == Some(RedirectBehavior::UseHandler) ==> redirect_of(m, method)
            is None,
        m.redirect_behavior != Some(RedirectBehavior::UseHandler) ==> redirect_of(m, method)
            == m.redirect_behavior,
{
    lemma_entry_at(m.redirect_method_behavior@, method);
}

/// The status of a redirect is the number in the name of its behavior.
pub proof fn law_redirect_status()
    ensures
        status_of(RedirectBehavior::Redirect301) == 301,
        status_of(RedirectBehavior::Redirect307) == 307,
        status_of(RedirectBehavior::Redirect308) == 308,
{
}

/// The query of a request is put behind the path it is sent to, with a question mark between.
pub proof fn law_redirect_location(path: Seq<char>, query: Seq<char>)
    ensures
        location_of(path, None) == path,
        location_of(path, Some(query)) == path + seq!['?'] + query,
{
    reveal_strlit("?");
    assert("?"@ =~= seq!['?']);
}

/// The handler of the route that is found is called, with the decoded parts of the path under the
/// names of the route, wherever a request is not sent to the other form of its path: where the path
/// has a slash at its end exactly if the route has one, where slashes do not matter, at a catch-all
/// that keeps its slash, and where no redirect is set.
pub proof fn law_found_handler_is_called<V>(
    m: Treemux<V>,
    method: Seq<char>,
    path: Seq<char>,
    bare: Seq<char>,
    h: Hit<V>,
    value: V,
    query: Option<Seq<char>>,
    clean_path: Seq<char>,
)
    requires
        path == seq!['/'] + bare || path == seq!['/'] + bare + seq!['/'] && bare.len() > 0
            && m.redirect_trailing_slash,
        path == seq!['/'] + bare && m.redirect_trailing_slash && bare.len() > 0 ==> bare.last()
            != '/',
        find(m.tree(), method, bare) == Some(h),
        h.value == Some(value),
        ({
            ||| !m.redirect_trailing_slash
            ||| h.leaf.catch_all is Some && !m.remove_catch_all_trailing_slash
            ||| h.leaf.add_slash == (path != seq!['/'] + bare)
            ||| value_of(m.redirect_method_behavior@, method) == Some(RedirectBehavior::UseHandler)
            ||| value_of(m.redirect_method_behavior@, method) is None && m.redirect_behavior is None
            ||| value_of(m.redirect_method_behavior@, method) is None && m.redirect_behavior
                == Some(RedirectBehavior::UseHandler)
        }),
    ensures
        ({
            let answer = response(m, method, path, query, clean_path);
            &&& answer matches Answer::Call { value: called, params } && called == value
                && params.len() == (if h.names.len() < h.params.len() {
                h.names.len()
            } else {
                h.params.len()
            }) && forall|i: int|
                0 <= i < params.len() ==> #[trigger] params[i] == (
                    h.names[i],
                    percent_decoded(h.params[i]),
                )
        }),
{
    lemma_two_forms(path, bare);
}

/// A path and the same path with a slash behind it.
proof fn lemma_two_forms(path: Seq<char>, bare: Seq<char>)
    ensures
        (seq!['/'] + bare).skip(1) == bare,
        (seq!['/'] + bare + seq!['/']).drop_last() == seq!['/'] + bare,
        bare.len() > 0 ==> (seq!['/'] + bare).last() == bare.last(),
        (seq!['/'] + bare + seq!['/']).last() == '/',
        (seq!['/'] + bare)[0] == '/',
{
    assert((seq!['/'] + bare).skip(1) =~= bare);
    assert((seq!['/'] + bare + seq!['/']).drop_last() =~= seq!['/'] + bare);
}

/// A request for the other form of a path is redirected, whatever its method is: with the status of
/// the behavior that is in force for it, to the path with a slash at its end if the route has one
/// and to the path without it if it has none, with the query behind it.
pub proof fn law_other_form_is_redirected<V>(
    m: Treemux<V>,
    method: Seq<char>,
    bare: Seq<char>,
    h: Hit<V>,
    b: RedirectBehavior,
    query: Seq<char>,
    clean_path: Seq<char>,
)
    requires
        m.redirect_trailing_slash,
        bare.len() > 0,
        bare.last() != '/',
        find(m.tree(), method, bare) == Some(h),
        h.value is Some,
        h.leaf.catch_all is None || m.remove_catch_all_trailing_slash,
        value_of(m.redirect_method_behavior@, method) == Some(b) || value_of(
            m.redirect_method_behavior@,
            method,
        ) is None && m.redirect_behavior == Some(b),
        b != RedirectBehavior::UseHandler,
    ensures
        ({
            let plain = seq!['/'] + bare;
            let slashed = seq!['/'] + bare + seq!['/'];
            let right = if h.leaf.add_slash {
                slashed
            } else {
                plain
            };
            let other = if h.leaf.add_slash {
                plain
            } else {
                slashed
            };
            let status: u16 = match b {
                RedirectBehavior::Redirect301 => 301,
                RedirectBehavior::Redirect307 => 307,
                _ => 308,
            };
            &&& response(m, method, other, None, clean_path) == (Answer::<V>::Redirect {
                status,
                location: right,
            })
            &&& response(m, method, other, Some(query), clean_path) == (Answer::<V>::Redirect {
                status,
                location: right + seq!['?'] + query,
            })
            &&& response(m, method, right, None, clean_path) is Call
        }),
{
    lemma_two_forms(bare, bare);
    reveal_strlit("/");
    assert("/"@ =~= seq!['/']);
    law_redirect_location(seq!['/'] + bare, query);
    law_redirect_location(seq!['/'] + bare + seq!['/'], query);
}

/// With the settings of a new router, every request for the other form of a path is answered with
/// a permanent redirect.
pub proof fn law_default_redirect<V>(
    m: Treemux<V>,
    method: Seq<char>,
    bare: Seq<char>,
    h: Hit<V>,
    clean_path: Seq<char>,
)
    requires
        m.has_defaults(),
        bare.len() > 0,
        bare.last() != '/',
        find(m.tree(), method, bare) == Some(h),
        h.value is Some,
        h.leaf.catch_all is None,
    ensures
        ({
            let plain = seq!['/'] + bare;
            let slashed = seq!['/'] + bare + seq!['/'];
            if h.leaf.add_slash {
                response(m, method, plain, None, clean_path) == (Answer::<V>::Redirect {
                    status: 301,
                    location: slashed,
                })
            } else {
                response(m, method, slashed, None, clean_path) == (Answer::<V>::Redirect {
                    status: 301,
                    location: plain,
                })
            }
        }),
{
    lemma_entry_at(m.redirect_method_behavior@, method);
    law_other_form_is_redirected(
        m,
        method,
        bare,
        h,
        RedirectBehavior::Redirect301,
        Seq::empty(),
        clean_path,
    );
}

/// Whether methods are those that the route found for a path has handlers for: each of them, none
/// but them, each once. There is at least one, the method that was asked for is not among them, and
/// a request with any of them finds a handler.
pub open spec fn names_the_methods<V>(
    m: Treemux<V>,
    method: Seq<char>,
    bare: Seq<char>,
    allowed: Seq<Seq<char>>,
) -> bool {
    match find(m.tree(), method, bare) {
        Some(h) => {
            &&& h.value is None
            &&& forall|other: Seq<char>| #[trigger]
                allowed.contains(other) <==> value_of(h.leaf.handlers, other) is Some
            &&& allowed.no_duplicates()
            &&& allowed.len() > 0
            &&& !allowed.contains(method)
            &&& forall|other: Seq<char>|
                allowed.contains(other) ==> #[trigger] has_value(find(m.tree(), other, bare))
        },
        None => false,
    }
}

/// A request that is answered with "method not allowed", whatever its method is, is told exactly
/// the methods that the route found has handlers for, at its path or at the cleaned path.
pub proof fn law_not_allowed_names_methods<V>(
    m: Treemux<V>,
    method: Seq<char>,
    path: Seq<char>,
    query: Option<Seq<char>>,
    clean_path: Seq<char>,
)
    requires
        m.wf(),
    ensures
        response(m, method, path, query, clean_path) matches Answer::MethodNotAllowed {
            value,
            allowed,
        } ==> {
            let plain = if path.len() > 1 && path.last() == '/' && m.redirect_trailing_slash {
                path.drop_last()
            } else {
                path
            };
            let bare = if plain.len() > 0 && plain[0] == '/' {
                plain.skip(1)
            } else {
                plain
            };
            let clean = if clean_path.len() > 0 && clean_path[0] == '/' {
                clean_path.skip(1)
            } else {
                clean_path
            };
            &&& value == m.handle_method_not_allowed
            &&& if find(m.tree(), method, bare) is Some {
                names_the_methods(m, method, bare, allowed)
            } else {
                names_the_methods(m, method, clean, allowed)
            }
        },
{
    let plain = if path.len() > 1 && path.last() == '/' && m.redirect_trailing_slash {
        path.drop_last()
    } else {
        path
    };
    let bare = if plain.len() > 0 && plain[0] == '/' {
        plain.skip(1)
    } else {
        plain
    };
    let clean = if clean_path.len() > 0 && clean_path[0] == '/' {
        clean_path.skip(1)
    } else {
        clean_path
    };
    lemma_names_the_methods(m, method, bare);
    lemma_names_the_methods(m, method, clean);
}

/// The methods of the route found for a path.
proof fn lemma_names_the_methods<V>(m: Treemux<V>, method: Seq<char>, bare: Seq<char>)
    requires
        m.wf(),
    ensures
        find(m.tree(), method, bare) matches Some(h) ==> h.value is None ==> names_the_methods(
            m,
            method,
            bare,
            crate::method::methods_of(h.leaf.handlers),
        ),
{
    law_allowed_methods_are_handled(m.tree(), method, bare);
    crate::lookup::law_found_is_registered(m.tree(), method, bare);
    if let Some(h) = find(m.tree(), method, bare) {
        let table = h.leaf.handlers;
        let allowed = crate::method::methods_of(table);
        crate::mux_laws::lemma_held_distinct(m.tree(), h.route);
        assert forall|other: Seq<char>| #[trigger]
            allowed.contains(other) <==> value_of(table, other) is Some by {
            lemma_entry_at(table, other);
            if allowed.contains(other) {
                let i = allowed.index_of(other);
                assert(table[i].0 == other);
            }
            if value_of(table, other) is Some {
                let i = crate::method::entry_at(table, other) as int;
                assert(allowed[i] == other);
            }
        }
    }
}

/// Where a route is found that has no handler for the method, the answer is "method not allowed",
/// but for `OPTIONS` requests where there is a handler for them. It never is where the route has a
/// handler.
pub proof fn law_method_without_handler<V>(
    m: Treemux<V>,
    method: Seq<char>,
    path: Seq<char>,
    bare: Seq<char>,
    h: Hit<V>,
    query: Option<Seq<char>>,
    clean_path: Seq<char>,
)
    requires
        path == seq!['/'] + bare || path == seq!['/'] + bare + seq!['/'] && bare.len() > 0
            && m.redirect_trailing_slash,
        path == seq!['/'] + bare && m.redirect_trailing_slash && bare.len() > 0 ==> bare.last()
            != '/',
        find(m.tree(), method, bare) == Some(h),
    ensures
        ({
            let answer = response(m, method, path, query, clean_path);
            &&& h.value is None && method == "OPTIONS"@ && m.handle_global_options is Some
                ==> answer == (Answer::GlobalOptions { value: m.handle_global_options->0 })
            &&& h.value is None && (method != "OPTIONS"@ || m.handle_global_options is None)
                ==> answer is MethodNotAllowed
            &&& h.value is Some ==> answer is Call || answer is Redirect
        }),
{
    lemma_two_forms(path, bare);
}

/// The path of a request that nothing is found for is cleaned, where the router does so: if a route
/// is found for the cleaned path, the request is redirected there as its method is redirected, and
/// where that is not at all, it is answered as a request for the cleaned path.
pub proof fn law_cleaned_path<V>(
    m: Treemux<V>,
    method: Seq<char>,
    path: Seq<char>,
    bare: Seq<char>,
    clean: Seq<char>,
    query: Seq<char>,
    b: RedirectBehavior,
)
    requires
        path == seq!['/'] + bare || path == seq!['/'] + bare + seq!['/'] && bare.len() > 0
            && m.redirect_trailing_slash,
        path == seq!['/'] + bare && m.redirect_trailing_slash && bare.len() > 0 ==> bare.last()
            != '/',
        find(m.tree(), method, bare) is None,
        value_of(m.redirect_method_behavior@, method) == Some(b) || value_of(
            m.redirect_method_behavior@,
            method,
        ) is None && m.redirect_behavior == Some(b),
    ensures
        ({
            let cleaned = seq!['/'] + clean;
            let answer = response(m, method, path, None, cleaned);
            let with_query = response(m, method, path, Some(query), cleaned);
            let status: u16 = match b {
                RedirectBehavior::Redirect301 => 301,
                RedirectBehavior::Redirect307 => 307,
                _ => 308,
            };
            &&& !m.redirect_clean_path || find(m.tree(), method, clean) is None ==> answer == (
            Answer::NotFound { value: m.handle_not_found }) && with_query == (Answer::NotFound {
                value: m.handle_not_found,
            })
            &&& m.redirect_clean_path && find(m.tree(), method, clean) is Some && b
                != RedirectBehavior::UseHandler ==> answer == (Answer::<V>::Redirect {
                status,
                location: cleaned,
            }) && with_query == (Answer::<V>::Redirect {
                status,
                location: cleaned + seq!['?'] + query,
            })
            &&& m.redirect_clean_path && b == RedirectBehavior::UseHandler ==> (find(
                m.tree(),
                method,
                clean,
            ) matches Some(h) ==> match h.value {
                Some(value) => answer matches Answer::Call { value: called, params } && called
                    == value && params.len() == (if h.names.len() < h.params.len() {
                    h.names.len()
                } else {
                    h.params.len()
                }) && forall|i: int|
                    0 <= i < params.len() ==> #[trigger] params[i] == (
                        h.names[i],
                        percent_decoded(h.params[i]),
                    ),
                None => answer is MethodNotAllowed || answer is GlobalOptions,
            })
        }),
{
    lemma_two_forms(path, bare);
    lemma_two_forms(path, clean);
    law_redirect_location(seq!['/'] + clean, query);
}

/// A request that no route is found for, at its path or at the cleaned one, is answered with "not
/// found", by the handler for that.
pub proof fn law_nothing_found<V>(
    m: Treemux<V>,
    method: Seq<char>,
    path: Seq<char>,
    bare: Seq<char>,
    clean: Seq<char>,
    query: Option<Seq<char>>,
)
    requires
        path == seq!['/'] + bare || path == seq!['/'] + bare + seq!['/'] && bare.len() > 0
            && m.redirect_trailing_slash,
        path == seq!['/'] + bare && m.redirect_trailing_slash && bare.len() > 0 ==> bare.last()
            != '/',
        find(m.tree(), method, bare) is None,
        m.redirect_clean_path ==> find(m.tree(), method, clean) is None,
    ensures
        response(m, method, path, query, seq!['/'] + clean) == (Answer::NotFound {
            value: m.handle_not_found,
        }),
{
    lemma_two_forms(path, bare);
    lemma_two_forms(path, clean);
}

/// What is to be done holds what its value says, as it stands.
pub proof fn law_action_is_shown<'a, V>(action: Action<'a, V>)
    ensures
        match action {
            Action::Call { handler, parameters } => action.view() == (Answer::Call {
                value: *handler,
                params: parameters@,
            }),
            Action::GlobalOptions { handler } => action.view() == (Answer::GlobalOptions {
                value: *handler,
            }),
            Action::MethodNotAllowed { handler, allowed } => action.view() matches
                Answer::MethodNotAllowed { value, allowed: shown } && (handler is None
                <==> value is None) && (handler matches Some(v) ==> value == Some(*v))
                && shown.len() == allowed.0@.len() && forall|i: int|
                0 <= i < shown.len() ==> #[trigger] shown[i] == allowed.0@[i]@,
            Action::NotFound { handler } => action.view() matches Answer::NotFound { value } && (
            handler is None <==> value is None) && (handler matches Some(v) ==> value == Some(*v)),
            Action::Redirect { status, location } => action.view() == (Answer::<V>::Redirect {
                status,
                location: location@,
            }),
        },
{
}

/// What is seen of a match is what it holds.
pub proof fn law_match_is_seen<'a, V>(found: Match<'a, V>)
    ensures
        ({
            let f = seen_match(found);
            &&& seen(Some(found)) == Some(f)
            &&& found.value is None <==> f.value is None
            &&& found.value matches Some(v) ==> f.value == Some(*v)
            &&& f.add_slash == found.add_slash
            &&& f.is_catch_all == found.is_catch_all
            &&& f.params == found.parameters@
            &&& f.methods.len() == found.leaf_handler@.len()
            &&& forall|i: int|
                0 <= i < f.methods.len() ==> #[trigger] f.methods[i] == found.leaf_handler@[i].0
        }),
        seen(None::<Match<'a, V>>) is None,
{
}

/// A query is the text it refers to.
pub proof fn law_text_of(text: &str)
    ensures
        text_of(Some(text)) == Some(text@),
        text_of(None) is None,
{
}

} // verus!
