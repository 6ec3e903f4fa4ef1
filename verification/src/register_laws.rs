//! What registering a handler changes, and why it is refused.

use vstd::prelude::*;

use crate::laws::{ends_well, law_registered_handlers, lemma_cut_ends_well};
use crate::method::{law_put_then_value, lemma_entry_at, lemma_method_names, value_of};
use crate::model::{
    blank_tree, catch_all_of, entered, escape_len, grown, leading_name, lemma_static_token, listed,
    literals, named, refused, registered, rejection, split, static_token, weight, wildcard_of,
    with_handler, Leaf, Registration, RouteError, Symbol, Tree,
};
use crate::routes::{
    end_of, held_at, law_registered_at, lemma_cut_token, lemma_held_blank, lemma_held_split,
    lemma_held_static, lemma_literals, names_in, route_of,
};
use crate::shape::{
    lemma_add_child, lemma_blank_wf, lemma_child_prefix, lemma_grown_wf, lemma_put_catch_all,
    lemma_put_child, lemma_put_wildcard, lemma_registered_distinct,
};
use crate::text::{common_len, lemma_common, lemma_segment, segment_len};

verus! {

/// A handler that is registered is there for its method, and for `HEAD` if it is for `GET`, may
/// stand in for it and `HEAD` has none. Only in that case the handler for `HEAD` can be replaced
/// later. The methods that were there keep their handlers and their order.
pub proof fn law_registered_leaf<V>(leaf: Leaf<V>, r: Registration<V>, method: Seq<char>)
    ensures
        ({
            let after = registered(leaf, r);
            let stands_in = r.method == "GET"@ && r.head_can_use_get && value_of(
                leaf.handlers,
                "HEAD"@,
            ) is None;
            &&& value_of(after.handlers, r.method) == Some(r.value)
            &&& stands_in ==> value_of(after.handlers, "HEAD"@) == Some(r.value)
                && after.implicit_head
            &&& r.method == "HEAD"@ ==> !after.implicit_head
            &&& r.method != "HEAD"@ && !stands_in ==> after.implicit_head == leaf.implicit_head
            &&& method != r.method && (method != "HEAD"@ || !stands_in) ==> value_of(
                after.handlers,
                method,
            ) == value_of(leaf.handlers, method)
            &&& after.add_slash == (leaf.add_slash || r.add_slash)
            &&& after.names == leaf.names
            &&& after.catch_all == leaf.catch_all
            &&& after.handlers.len() >= leaf.handlers.len()
            &&& forall|i: int|
                0 <= i < leaf.handlers.len() ==> (#[trigger] after.handlers[i]).0
                    == leaf.handlers[i].0
        }),
{
    lemma_method_names();
    law_registered_handlers(leaf, r, method);
    law_registered_handlers(leaf, r, r.method);
    law_registered_handlers(leaf, r, "HEAD"@);
    lemma_put_keeps(leaf, r.method, r.value, false, r.add_slash);
    let explicit = with_handler(leaf, r.method, r.value, false, r.add_slash);
    law_put_then_value(leaf.handlers, r.method, r.value, "HEAD"@);
    lemma_put_keeps(explicit, "HEAD"@, r.value, true, r.add_slash);
}

proof fn lemma_put_keeps<V>(
    leaf: Leaf<V>,
    method: Seq<char>,
    value: V,
    implicit_head: bool,
    add_slash: bool,
)
    ensures
        ({
            let after = with_handler(leaf, method, value, implicit_head, add_slash);
            &&& after.handlers.len() >= leaf.handlers.len()
            &&& forall|i: int|
                0 <= i < leaf.handlers.len() ==> (#[trigger] after.handlers[i]).0
                    == leaf.handlers[i].0
        }),
{
    lemma_entry_at(leaf.handlers, method);
}

/// What a handler that is registered for a pattern changes at the route of the pattern, and that it
/// changes nothing at any other.
pub proof fn law_entered_leaf<V>(
    t: Tree<V>,
    pattern: Seq<char>,
    r: Registration<V>,
    route: Seq<Symbol>,
    method: Seq<char>,
)
    requires
        t.wf(),
        pattern.len() == 0 || pattern[0] != '/',
    ensures
        ({
            let before = held_at(t, route);
            let after = held_at(entered(t, seq!['/'] + pattern, r), route);
            let stands_in = r.method == "GET"@ && r.head_can_use_get && value_of(
                before.handlers,
                "HEAD"@,
            ) is None;
            if route == route_of(pattern, false) {
                &&& value_of(after.handlers, r.method) == Some(r.value)
                &&& stands_in ==> value_of(after.handlers, "HEAD"@) == Some(r.value)
                    && after.implicit_head
                &&& r.method == "HEAD"@ ==> !after.implicit_head
                &&& r.method != "HEAD"@ && !stands_in ==> after.implicit_head
                    == before.implicit_head
                &&& method != r.method && (method != "HEAD"@ || !stands_in) ==> value_of(
                    after.handlers,
                    method,
                ) == value_of(before.handlers, method)
                &&& after.add_slash == (before.add_slash || r.add_slash)
                &&& match end_of(pattern, false) {
                    Some(name) => {
                        &&& after.names == names_in(pattern, None, false)
                        &&& before.catch_all is Some ==> after.catch_all == before.catch_all
                        &&& before.catch_all is None ==> after.catch_all == Some(name)
                    },
                    None => {
                        &&& before.names is Some ==> after.names == before.names
                        &&& before.names is None ==> after.names == names_in(pattern, None, false)
                        &&& after.catch_all == before.catch_all
                    },
                }
            } else {
                after == before
            }
        }),
{
    assert((seq!['/'] + pattern).skip(1) =~= pattern);
    let names = names_in(pattern, None, false);
    law_registered_at(t, pattern, None, false, r, route);
    law_registered_leaf(held_at(t, route), r, method);
    law_registered_leaf(named(held_at(t, route), names), r, method);
}

/// Why a handler for a pattern is refused, as long as the values can be counted. Something follows
/// its catch-all, or the catch-all that is there has another name; another number of wildcards, or
/// other names, are on the way to a route that has handlers; or there is a handler for the method,
/// other than one for `HEAD` that one for `GET` stands in for.
#[verifier::spinoff_prover]
#[verifier::rlimit(60)]
pub proof fn law_refusal_reason<V>(
    t: Tree<V>,
    pattern: Seq<char>,
    names: Option<Seq<Seq<char>>>,
    in_token: bool,
    method: Seq<char>,
)
    requires
        t.wf(),
        t.priority + 2 <= usize::MAX,
    ensures
        ({
            let leaf = held_at(t, route_of(pattern, in_token));
            let own = names_in(pattern, names, in_token);
            let handled = value_of(leaf.handlers, method) is Some && !(method == "HEAD"@
                && leaf.implicit_head);
            rejection(t, pattern, names, in_token, method) == if !ends_well(pattern, in_token) {
                Some(RouteError::CatchAllName)
            } else if end_of(pattern, in_token) is Some && leaf.catch_all is Some && leaf.catch_all
                != end_of(pattern, in_token) {
                Some(RouteError::CatchAllName)
            } else if end_of(pattern, in_token) is None && leaf.names is Some && own is Some
                && leaf.names->0.len() != own->0.len() {
                Some(RouteError::WildcardCount)
            } else if end_of(pattern, in_token) is None && leaf.names is Some && own is Some
                && leaf.names != own {
                Some(RouteError::WildcardNames)
            } else if handled {
                Some(RouteError::AlreadyHandled)
            } else {
                None
            }
        }),
    decreases pattern.len(), t,
{
    let route = route_of(pattern, in_token);
    if pattern.len() == 0 {
    } else if pattern[0] == '*' && !in_token {
        assert(route[0] == Symbol::CatchAll);
        lemma_segment(pattern);
        assert(pattern.take(pattern.len() as int) =~= pattern);
    } else if pattern[0] == ':' && !in_token {
        let name = leading_name(pattern);
        let rest = pattern.skip(segment_len(pattern) as int);
        let node = wildcard_of(t, name);
        lemma_segment(pattern);
        lemma_blank_wf::<V>(name);
        assert(route[0] == Symbol::Wildcard);
        assert(route.skip(1) =~= route_of(rest, false));
        lemma_held_blank::<V>(name, route.skip(1));
        assert(held_at(t, route) == held_at(node, route.skip(1)));
        law_refusal_reason(node, rest, Some(listed(names).push(name)), false, method);
    } else {
        let skipped = escape_len(pattern, in_token);
        let token = static_token(pattern, in_token);
        let c = token[0];
        lemma_static_token(pattern, in_token);
        lemma_cut_token(pattern, in_token, token.len());
        assert(token.take(token.len() as int) =~= token);
        assert(route[0] == literals(token)[0]);
        lemma_held_static(t, route, c);
        if t.indices.contains(c) {
            lemma_child_prefix(t, token);
            let child = t.children[t.indices.index_of(c)];
            let n = common_len(child.path, token);
            lemma_common(child.path, token);
            let cut = split(child, n);
            let rest = pattern.skip((skipped + n) as int);
            lemma_cut_token(pattern, in_token, n);
            lemma_cut_ends_well(pattern, in_token, n);
            if n > 0 {
                lemma_held_split(child, n, route);
            }
            assert(cut.path == token.take(n as int));
            lemma_literals(cut.path, Seq::empty(), route_of(rest, c != '/'));
            assert(held_at(t, route) == held_at(cut, route_of(rest, c != '/')));
            assert(names_in(pattern, names, in_token) == names_in(rest, names, c != '/'));
            law_refusal_reason(cut, rest, names, c != '/', method);
        } else {
            let rest = pattern.skip((skipped + token.len()) as int);
            let fresh = blank_tree::<V>(token);
            lemma_blank_wf::<V>(token);
            lemma_held_blank::<V>(token, route_of(rest, c != '/'));
            law_refusal_reason(fresh, rest, names, c != '/', method);
        }
    }
}

/// A tree refuses handlers because there are too many values only where it cannot count two more.
pub proof fn law_full_tree<V>(t: Tree<V>, pattern: Seq<char>, method: Seq<char>)
    requires
        t.wf(),
    ensures
        rejection(t, pattern, None, false, method) == Some(RouteError::TooManyRoutes) <==> t.priority
            + 2 > usize::MAX && pattern.len() > 0,
{
    if t.priority + 2 <= usize::MAX {
        law_refusal_reason(t, pattern, None, false, method);
    }
}

/// The values of a tree grow by those that come in at the route of the pattern.
#[verifier::spinoff_prover]
#[verifier::rlimit(60)]
proof fn lemma_grown_weight<V>(
    t: Tree<V>,
    pattern: Seq<char>,
    names: Option<Seq<Seq<char>>>,
    in_token: bool,
    r: Registration<V>,
)
    requires
        t.wf(),
    ensures
        ({
            let before = held_at(t, route_of(pattern, in_token));
            weight(grown(t, pattern, names, in_token, r)) + before.handlers.len() == weight(t)
                + registered(before, r).handlers.len()
        }),
    decreases pattern.len(), t,
{
    let route = route_of(pattern, in_token);
    if pattern.len() == 0 {
    } else if pattern[0] == '*' && !in_token {
        let name = leading_name(pattern);
        let node = catch_all_of(t, name);
        lemma_registered_distinct(node.leaf, r);
        let leaf = Leaf { names: Some(listed(names).push(name)), ..registered(node.leaf, r) };
        assert(route[0] == Symbol::CatchAll);
        lemma_put_catch_all(t, Tree { leaf, ..node });
    } else if pattern[0] == ':' && !in_token {
        let name = leading_name(pattern);
        let rest = pattern.skip(segment_len(pattern) as int);
        let node = wildcard_of(t, name);
        let more = Some(listed(names).push(name));
        lemma_segment(pattern);
        lemma_blank_wf::<V>(name);
        assert(route[0] == Symbol::Wildcard);
        assert(route.skip(1) =~= route_of(rest, false));
        lemma_held_blank::<V>(name, route.skip(1));
        assert(held_at(t, route) == held_at(node, route.skip(1)));
        lemma_grown_wf(node, rest, more, false, r);
        lemma_put_wildcard(t, grown(node, rest, more, false, r));
        lemma_grown_weight(node, rest, more, false, r);
    } else {
        let skipped = escape_len(pattern, in_token);
        let token = static_token(pattern, in_token);
        let c = token[0];
        lemma_static_token(pattern, in_token);
        lemma_cut_token(pattern, in_token, token.len());
        assert(token.take(token.len() as int) =~= token);
        assert(route[0] == literals(token)[0]);
        lemma_held_static(t, route, c);
        if t.indices.contains(c) {
            lemma_child_prefix(t, token);
            let i = t.indices.index_of(c);
            let child = t.children[i];
            let n = common_len(child.path, token);
            lemma_common(child.path, token);
            let cut = split(child, n);
            let rest = pattern.skip((skipped + n) as int);
            lemma_cut_token(pattern, in_token, n);
            if n > 0 {
                lemma_held_split(child, n, route);
            }
            assert(cut.path == token.take(n as int));
            lemma_literals(cut.path, Seq::empty(), route_of(rest, c != '/'));
            assert(held_at(t, route) == held_at(cut, route_of(rest, c != '/')));
            lemma_grown_wf(cut, rest, names, c != '/', r);
            lemma_put_child(t, i, grown(cut, rest, names, c != '/', r));
            lemma_grown_weight(cut, rest, names, c != '/', r);
        } else {
            let rest = pattern.skip((skipped + token.len()) as int);
            let fresh = blank_tree::<V>(token);
            lemma_blank_wf::<V>(token);
            lemma_held_blank::<V>(token, route_of(rest, c != '/'));
            lemma_grown_wf(fresh, rest, names, c != '/', r);
            lemma_add_child(t, c, grown(fresh, rest, names, c != '/', r));
            lemma_grown_weight(fresh, rest, names, c != '/', r);
        }
    }
}

/// The priority of a root counts registrations: it grows by one for each method that the route of
/// the pattern gets a handler for and had none for, which is at most the method that is registered
/// and `HEAD`. A tree that nothing was registered in has none.
pub proof fn law_priority_grows<V>(t: Tree<V>, pattern: Seq<char>, r: Registration<V>)
    requires
        t.wf(),
        pattern.len() > 0,
        pattern[0] != '/',
    ensures
        ({
            let before = held_at(t, route_of(pattern, false));
            let more: nat = if value_of(before.handlers, r.method) is None {
                1
            } else {
                0
            };
            let implied: nat = if r.method == "GET"@ && r.head_can_use_get && value_of(
                before.handlers,
                "HEAD"@,
            ) is None {
                1
            } else {
                0
            };
            entered(t, seq!['/'] + pattern, r).priority == t.priority + more + implied
        }),
        blank_tree::<V>(seq!['/']).priority == 0,
{
    assert((seq!['/'] + pattern).skip(1) =~= pattern);
    let before = held_at(t, route_of(pattern, false));
    lemma_grown_weight(t, pattern, None, false, r);
    lemma_grown_wf(t, pattern, None, false, r);
    lemma_method_names();
    lemma_entry_at(before.handlers, r.method);
    let explicit = with_handler(before, r.method, r.value, false, r.add_slash);
    law_put_then_value(before.handlers, r.method, r.value, "HEAD"@);
    lemma_entry_at(explicit.handlers, "HEAD"@);
}

} // verus!
