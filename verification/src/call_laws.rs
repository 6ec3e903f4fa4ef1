//! What calls of the library give, said of their arguments.

use vstd::prelude::*;

use crate::builder::{check_path, check_scope, Builder, GroupBuilder, RedirectBehavior};
use crate::builder_laws::law_scopes_are_joined;
use crate::decode::percent_decoded;
use crate::layered::{LayeredBuilder, LayeredGroup};
use crate::method::{value_of, Method};
use crate::model::{find, RouteError};
use crate::mux::{response, Action, Treemux};
use crate::params::Params;

verus! {

/// A lookup gives the handler that is found for the method and the path, with the decoded parts of
/// the path under the names of the route, and otherwise no hint at a trailing slash.
pub proof fn law_lookup<'b, V>(
    m: &'b Treemux<V>,
    method: &Method,
    path: &str,
    bare: Seq<char>,
    r: Result<(&'b V, Params), bool>,
)
    requires
        call_ensures(Treemux::<V>::lookup, (m, method, path), r),
        path@ == seq!['/'] + bare,
    ensures
        r is Ok <==> (find(m.tree(), method@, bare) matches Some(h) && h.value is Some),
        r is Ok ==> {
            let h = find(m.tree(), method@, bare)->0;
            let params = r->Ok_0.1@;
            &&& h.value == Some(*r->Ok_0.0)
            &&& params.len() == (if h.names.len() < h.params.len() {
                h.names.len()
            } else {
                h.params.len()
            })
            &&& forall|i: int|
                0 <= i < params.len() ==> #[trigger] params[i] == (
                    h.names[i],
                    percent_decoded(h.params[i]),
                )
        },
        r is Err ==> !r->Err_0,
{
    assert((seq!['/'] + bare).skip(1) =~= bare);
}

/// How a method is redirected is what the table says for it, and else what the router says.
pub proof fn law_redirect_for<V>(m: &Treemux<V>, method: &Method, r: Option<RedirectBehavior>)
    requires
        call_ensures(Treemux::<V>::redirect_for, (m, method), r),
    ensures
        ({
            let said = match value_of(m.redirect_method_behavior@, method@) {
                Some(b) => Some(b),
                None => m.redirect_behavior,
            };
            &&& r is None <==> said is None || said == Some(RedirectBehavior::UseHandler)
            &&& r is Some ==> r == said
        }),
{
}

/// A request is answered as its method, its path and its query say.
pub proof fn law_respond<'b, V>(
    m: &'b Treemux<V>,
    method: &Method,
    path: &str,
    query: &str,
    clean_path: &str,
    r: Action<'b, V>,
)
    ensures
        call_ensures(Treemux::<V>::respond, (m, method, path, Some(query), clean_path), r)
            ==> r.view() == response(*m, method@, path@, Some(query@), clean_path@),
        call_ensures(Treemux::<V>::respond, (m, method, path, None::<&str>, clean_path), r)
            ==> r.view() == response(*m, method@, path@, None, clean_path@),
{
}

/// The path that is looked up is that of the request, without a slash at its end where slashes are
/// redirected.
pub proof fn law_lookup_path<'b, V>(m: &Treemux<V>, path: &'b str, bare: Seq<char>, r: &'b str)
    requires
        call_ensures(Treemux::<V>::lookup_path, (m, path), r),
        bare.len() > 0,
    ensures
        path@ == bare + seq!['/'] && m.redirect_trailing_slash ==> r@ == bare,
        path@ == bare + seq!['/'] && !m.redirect_trailing_slash ==> r@ == bare + seq!['/'],
        path@ == bare && (bare.len() == 1 || bare.last() != '/') ==> r@ == bare,
{
    assert((bare + seq!['/']).drop_last() =~= bare);
}

/// A path is accepted exactly if it starts with a slash.
pub proof fn law_check_path(path: &str, r: Result<(), RouteError>)
    ensures
        call_ensures(check_path, (path,), r) ==> (r is Ok <==> path@.len() > 0 && path@[0] == '/'),
        call_ensures(check_path, (path,), r) && r is Err ==> r->Err_0
            == RouteError::NoLeadingSlash,
        call_ensures(check_scope, (path,), r) ==> (r is Ok <==> path@.len() > 0 && path@[0]
            == '/'),
        call_ensures(check_scope, (path,), r) && r is Err ==> r->Err_0 == if path@.len() == 0 {
            RouteError::EmptyPath
        } else {
            RouteError::NoLeadingSlash
        },
{
}

/// A group inside a group has the prefix of the group followed by the path, without a slash at its
/// end, and adds to the same router.
pub proof fn law_group_scope<'a, V>(
    g: GroupBuilder<'a, V>,
    path: &str,
    bare: Seq<char>,
    r: GroupBuilder<'a, V>,
)
    requires
        call_ensures(GroupBuilder::<'a, V>::scope, (g, path), r),
        path@ == bare + seq!['/'] || path@ == bare && bare.len() > 0 && bare.last() != '/',
    ensures
        r.prefix@ == g.prefix@ + bare,
        r.builder() == g.builder(),
{
    law_scopes_are_joined(g.prefix@, bare);
}

/// A group of a layered router inside a group has its prefix, its middlewares and its router.
pub proof fn law_layered_scope<'a, V, M>(
    g: LayeredGroup<'a, V, M>,
    path: &str,
    bare: Seq<char>,
    r: LayeredGroup<'a, V, M>,
)
    requires
        call_ensures(LayeredGroup::<'a, V, M>::scope, (g, path), r),
        path@ == bare + seq!['/'] || path@ == bare && bare.len() > 0 && bare.last() != '/',
    ensures
        r.prefix@ == g.prefix@ + bare,
        r.chain == g.chain,
        r.layered() == g.layered(),
{
    law_scopes_are_joined(g.prefix@, bare);
}

/// A middleware that is added to a group is its last one, and changes nothing else.
pub proof fn law_group_middleware<'a, V, M>(
    g: LayeredGroup<'a, V, M>,
    middleware: M,
    r: LayeredGroup<'a, V, M>,
)
    requires
        call_ensures(LayeredGroup::<'a, V, M>::middleware, (g, middleware), r),
    ensures
        r.chain.links@ == g.chain.links@.push(middleware),
        r.prefix@ == g.prefix@,
        r.layered() == g.layered(),
{
}

/// A middleware that is added to a router is its last one, and changes nothing else.
pub proof fn law_router_middleware<V, M>(
    b: LayeredBuilder<V, M>,
    middleware: M,
    r: LayeredBuilder<V, M>,
)
    requires
        call_ensures(LayeredBuilder::<V, M>::middleware, (b, middleware), r),
    ensures
        r.chain.links@ == b.chain.links@.push(middleware),
        r.builder == b.builder,
{
}

/// Building gives the router with the routes, the handlers and the settings of the builder.
pub proof fn law_build<V>(b: Builder<V>, r: Treemux<V>)
    requires
        call_ensures(Builder::<V>::build, (b,), r),
    ensures
        r.root == b.root,
        r.handle_not_found == b.handle_not_found,
        r.handle_method_not_allowed == b.handle_method_not_allowed,
        r.handle_global_options == b.handle_global_options,
        r.head_can_use_get == b.head_can_use_get,
        r.redirect_trailing_slash == b.redirect_trailing_slash,
        r.redirect_clean_path == b.redirect_clean_path,
        r.redirect_behavior == b.redirect_behavior,
        r.redirect_method_behavior == b.redirect_method_behavior,
        r.remove_catch_all_trailing_slash == b.remove_catch_all_trailing_slash,
        r.escape_added_routes == b.escape_added_routes,
{
}

} // verus!
