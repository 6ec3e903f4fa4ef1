//! Building a router whose handlers are wrapped by middlewares.

use vstd::prelude::*;

use crate::builder::{
    path_error, scope_error, scope_prefix, scoped, with_route, with_routes, Builder, RouterBuilder,
};
use crate::method::Method;
use crate::middleware::{wraps, Chain, Middleware};
use crate::model::RouteError;
use crate::mux::Treemux;
use crate::text::join;

verus! {

/// A router under construction, and the middlewares that are put around the handlers that are
/// registered with it.
#[derive(Debug)]
pub struct LayeredBuilder<V, M> {
    pub builder: Builder<V>,
    pub chain: Chain<M>,
}

/// Whether one builder is what becomes of another when a handler was to be registered for a method
/// and a path, and whether it was.
pub open spec fn registers<V>(
    before: Builder<V>,
    after: Builder<V>,
    method: Seq<char>,
    path: Seq<char>,
    handler: V,
    r: Result<(), RouteError>,
) -> bool {
    let outcome = with_route(before.tree(), path, method, handler, before.rules());
    &&& after.wf()
    &&& after.same_but_routes(&before)
    &&& after.tree() == outcome.0
    &&& match outcome.1 {
        None => r is Ok,
        Some(e) => r == Err::<(), RouteError>(e),
    }
}

impl<V, M> LayeredBuilder<V, M> {
    /// The router without middlewares.
    pub fn new(builder: Builder<V>) -> (r: Self)
        ensures
            r.builder == builder,
            r.chain.links@.len() == 0,
    {
        LayeredBuilder { builder, chain: Chain::new() }
    }

    /// Puts a middleware inside of those that are there. It is put around the handlers that are
    /// registered from now on; what was registered before, and every setting, stays as it is.
    pub fn middleware(self, middleware: M) -> (r: Self)
        ensures
            r.builder == self.builder,
            r.chain.links@ == self.chain.links@.push(middleware),
    {
        let mut chain = self.chain;
        chain.middleware(middleware);
        LayeredBuilder { builder: self.builder, chain }
    }

    /// A group of routes with a common prefix, which `check_scope` must accept, and without
    /// middlewares of its own.
    pub fn scope<'b>(&'b mut self, path: &str) -> (r: LayeredGroup<'b, V, M>)
        requires
            scope_error(path@) is None,
        ensures
            r.prefix@ == scoped(Seq::empty(), path@),
            r.chain.links@.len() == 0,
            *r.inner == *old(self),
            *final(self) == *final(r.inner),
    {
        proof {
            reveal_strlit("");
            assert(""@ =~= Seq::<char>::empty());
        }
        LayeredGroup { prefix: scope_prefix("", path), inner: self, chain: Chain::new() }
    }

    /// Registers a handler, wrapped, for requests of a method to a path, which must start with a
    /// slash.
    pub fn handle(&mut self, method: Method, path: &str, handler: V) -> (r: Result<(), RouteError>)
        where M: Middleware<Input = V, Output = V>
        requires
            old(self).builder.wf(),
            path_error(path@) is None,
        ensures
            final(self).chain == old(self).chain,
            exists|wrapped: V|
                #[trigger] wraps(old(self).chain.links@, handler, wrapped) && registers(
                    old(self).builder,
                    final(self).builder,
                    method@,
                    path@,
                    wrapped,
                    r,
                ),
    {
        let wrapped: V = self.chain.wrap(handler);
        let ghost kept = wrapped;
        let r = self.builder.handle(method, path, wrapped);
        assert(wraps(old(self).chain.links@, handler, kept));
        r
    }

    /// Registers a handler, wrapped, for when there is no match.
    pub fn not_found(&mut self, handler: V) where M: Middleware<Input = V, Output = V>
        ensures
            final(self).chain == old(self).chain,
            exists|wrapped: V|
                #[trigger] wraps(old(self).chain.links@, handler, wrapped) && final(self).builder == (
                Builder { handle_not_found: Some(wrapped), ..old(self).builder }),
    {
        let wrapped: V = self.chain.wrap(handler);
        let ghost kept = wrapped;
        self.builder.not_found(wrapped);
        assert(wraps(old(self).chain.links@, handler, kept));
    }

    /// Registers a handler, wrapped, for when the path matches a different method than the
    /// requested one.
    pub fn method_not_allowed(&mut self, handler: V) where M: Middleware<Input = V, Output = V>
        ensures
            final(self).chain == old(self).chain,
            exists|wrapped: V|
                #[trigger] wraps(old(self).chain.links@, handler, wrapped) && final(self).builder == (
                Builder { handle_method_not_allowed: Some(wrapped), ..old(self).builder }),
    {
        let wrapped: V = self.chain.wrap(handler);
        let ghost kept = wrapped;
        self.builder.method_not_allowed(wrapped);
        assert(wraps(old(self).chain.links@, handler, kept));
    }

    /// Registers a handler, wrapped, for `OPTIONS` requests to paths that other methods are
    /// registered for.
    pub fn global_options(&mut self, handler: V) where M: Middleware<Input = V, Output = V>
        ensures
            final(self).chain == old(self).chain,
            exists|wrapped: V|
                #[trigger] wraps(old(self).chain.links@, handler, wrapped) && final(self).builder == (
                Builder { handle_global_options: Some(wrapped), ..old(self).builder }),
    {
        let wrapped: V = self.chain.wrap(handler);
        let ghost kept = wrapped;
        self.builder.global_options(wrapped);
        assert(wraps(old(self).chain.links@, handler, kept));
    }
}

/// A group of routes with a common prefix and middlewares of its own, which are put inside of those
/// of the router.
pub struct LayeredGroup<'a, V, M> {
    pub prefix: String,
    pub inner: &'a mut LayeredBuilder<V, M>,
    pub chain: Chain<M>,
}

impl<'a, V, M> LayeredGroup<'a, V, M> {
    /// The router as it is now.
    pub open spec fn layered(self) -> LayeredBuilder<V, M> {
        *self.inner
    }

    /// A group inside the group, with its middlewares. `check_scope` must accept the path.
    pub fn scope(self, path: &str) -> (r: LayeredGroup<'a, V, M>)
        requires
            scope_error(path@) is None,
        ensures
            r.prefix@ == scoped(self.prefix@, path@),
            r.chain == self.chain,
            r.layered() == self.layered(),
            *final(r.inner) == *final(self.inner),
    {
        LayeredGroup {
            prefix: scope_prefix(self.prefix.as_str(), path),
            inner: self.inner,
            chain: self.chain,
        }
    }

    /// Puts a middleware inside of those of the group. What was registered before stays as it is.
    pub fn middleware(self, middleware: M) -> (r: LayeredGroup<'a, V, M>)
        ensures
            r.prefix == self.prefix,
            r.chain.links@ == self.chain.links@.push(middleware),
            r.layered() == self.layered(),
            *final(r.inner) == *final(self.inner),
    {
        let mut chain = self.chain;
        chain.middleware(middleware);
        LayeredGroup { prefix: self.prefix, inner: self.inner, chain }
    }

    /// Registers a handler for requests of a method to a path behind the prefix, which together
    /// must start with a slash. The middlewares of the group are put around it, and those of the
    /// router around the result.
    pub fn handle(&mut self, method: Method, path: &str, handler: V) -> (r: Result<(), RouteError>)
        where M: Middleware<Input = V, Output = V>
        requires
            old(self).layered().builder.wf(),
            path_error(old(self).prefix@ + path@) is None,
        ensures
            final(self).prefix == old(self).prefix,
            final(self).chain == old(self).chain,
            final(self).layered().chain == old(self).layered().chain,
            exists|inner: V, wrapped: V|
                #[trigger] wraps(old(self).chain.links@, handler, inner) && #[trigger] wraps(
                    old(self).layered().chain.links@,
                    inner,
                    wrapped,
                ) && registers(
                    old(self).layered().builder,
                    final(self).layered().builder,
                    method@,
                    old(self).prefix@ + path@,
                    wrapped,
                    r,
                ),
            *final(final(self).inner) == *final(old(self).inner),
    {
        let inner: V = self.chain.wrap(handler);
        let ghost kept = inner;
        let whole: String = join(self.prefix.as_str(), path);
        let r = self.inner.handle(method, whole.as_str(), inner);
        assert(wraps(old(self).chain.links@, handler, kept));
        r
    }

    /// Attaches the routes of another router below a path of the group, which `check_scope` must
    /// accept. They are not wrapped.
    pub fn extend(&mut self, path: &str, routes: Treemux<V>) -> (r: Result<(), RouteError>)
        requires
            old(self).layered().builder.wf(),
            routes.wf(),
            scope_error(path@) is None,
        ensures
            ({
                let outcome = with_routes(
                    old(self).layered().builder.tree(),
                    old(self).prefix@,
                    path@,
                    routes.tree(),
                );
                &&& final(self).layered().builder.tree() == outcome.0
                &&& match outcome.1 {
                    None => r is Ok,
                    Some(e) => r == Err::<(), RouteError>(e),
                }
            }),
            final(self).layered().builder.wf(),
            final(self).layered().builder.same_but_routes(&old(self).layered().builder),
            final(self).layered().chain == old(self).layered().chain,
            final(self).prefix == old(self).prefix,
            final(self).chain == old(self).chain,
            *final(final(self).inner) == *final(old(self).inner),
    {
        self.inner.builder.extend_under(self.prefix.as_str(), path, routes)
    }
}

/// Of two middlewares the one that was added first is outermost: a handler is wrapped by the second,
/// and the result by the first.
pub proof fn law_first_middleware_is_outermost<V, M: Middleware<Input = V, Output = V>>(
    first: M,
    second: M,
    handler: V,
    wrapped: V,
)
    ensures
        wraps(seq![first, second], handler, wrapped) <==> exists|inner: V|
            #[trigger] call_ensures(M::chain, (&second, handler), inner) && call_ensures(
                M::chain,
                (&first, inner),
                wrapped,
            ),
{
    let both = seq![first, second];
    let one = seq![first];
    let none = Seq::<M>::empty();
    assert(both.drop_last() =~= one);
    assert(both.last() == second);
    assert(one.drop_last() =~= none);
    assert(one.last() == first);
    assert forall|inner: V| #[trigger]
        call_ensures(M::chain, (&second, handler), inner) implies (wraps(one, inner, wrapped)
        <==> call_ensures(M::chain, (&first, inner), wrapped)) by {
        if wraps(one, inner, wrapped) {
            let mid = choose|mid: V| #[trigger]
                call_ensures(M::chain, (&one.last(), inner), mid) && wraps(
                    one.drop_last(),
                    mid,
                    wrapped,
                );
            assert(wraps(none, mid, wrapped));
        }
        if call_ensures(M::chain, (&first, inner), wrapped) {
            assert(wraps(none, wrapped, wrapped));
            assert(call_ensures(M::chain, (&one.last(), inner), wrapped));
        }
    }
    if wraps(both, handler, wrapped) {
        let inner = choose|mid: V| #[trigger]
            call_ensures(M::chain, (&both.last(), handler), mid) && wraps(
                both.drop_last(),
                mid,
                wrapped,
            );
        assert(call_ensures(M::chain, (&second, handler), inner));
    }
    if exists|inner: V|
        #[trigger] call_ensures(M::chain, (&second, handler), inner) && call_ensures(
            M::chain,
            (&first, inner),
            wrapped,
        ) {
        let inner = choose|inner: V|
            #[trigger] call_ensures(M::chain, (&second, handler), inner) && call_ensures(
                M::chain,
                (&first, inner),
                wrapped,
            );
        assert(call_ensures(M::chain, (&both.last(), handler), inner));
    }
}

} // verus!
