//! Which of the routes that match a path a lookup finds.

use vstd::prelude::*;

use crate::method::value_of;
use crate::model::{
    find, find_catch_all, find_static, find_wildcard, has_value, listed, literal, literals, Symbol,
    Tree,
};
use crate::routes::{held_at, leaf_at, lemma_literals};
use crate::text::{lemma_segment, segment_len};

verus! {

/// What the wildcards and the catch-all of a route match in a path, if the route matches it: a
/// wildcard matches one segment, a catch-all the whole rest, and neither matches nothing.
pub open spec fn captures(route: Seq<Symbol>, path: Seq<char>) -> Option<Seq<Seq<char>>>
    decreases route.len(),
{
    if route.len() == 0 {
        if path.len() == 0 {
            Some(Seq::empty())
        } else {
            None
        }
    } else {
        match route[0] {
            Symbol::Literal(c) => if path.len() > 0 && path[0] == c {
                captures(route.skip(1), path.skip(1))
            } else {
                None
            },
            Symbol::Wildcard => {
                let n = segment_len(path) as int;
                match captures(route.skip(1), path.skip(n)) {
                    Some(rest) => if n > 0 {
                        Some(seq![path.take(n)] + rest)
                    } else {
                        None
                    },
                    None => None,
                }
            },
            Symbol::CatchAll => if route.len() == 1 && path.len() > 0 {
                Some(seq![path])
            } else {
                None
            },
        }
    }
}

/// The place of a symbol in the order of preference.
pub open spec fn rank(s: Symbol) -> nat {
    match s {
        Symbol::Literal(_) => 0,
        Symbol::Wildcard => 1,
        Symbol::CatchAll => 2,
    }
}

/// Whether the first route is preferred to the second: where they first differ, static text comes
/// before a wildcard, and a wildcard before a catch-all.
pub open spec fn prefers(a: Seq<Symbol>, b: Seq<Symbol>) -> bool
    decreases a.len(),
{
    if a.len() == 0 || b.len() == 0 {
        false
    } else if a[0] == b[0] {
        prefers(a.skip(1), b.skip(1))
    } else {
        rank(a[0]) < rank(b[0])
    }
}

/// Literals at the head of a route match themselves.
pub proof fn lemma_captures_literals(text: Seq<char>, route: Seq<Symbol>, path: Seq<char>)
    ensures
        captures(literals(text) + route, path) == if text.is_prefix_of(path) {
            captures(route, path.skip(text.len() as int))
        } else {
            None
        },
    decreases text.len(),
{
    let whole = literals(text) + route;
    if text.len() == 0 {
        assert(whole =~= route);
        assert(path.skip(0) =~= path);
    } else {
        let rest = text.skip(1);
        assert(whole[0] == Symbol::Literal(text[0]));
        assert(whole.skip(1) =~= literals(rest) + route);
        if path.len() > 0 && path[0] == text[0] {
            let tail = path.skip(1);
            lemma_captures_literals(rest, route, tail);
            if rest.is_prefix_of(tail) {
                assert forall|i: int| 0 <= i < text.len() implies text[i] == path[i] by {
                    if i > 0 {
                        assert(rest[i - 1] == tail.subrange(0, rest.len() as int)[i - 1]);
                    }
                }
                assert(text =~= path.subrange(0, text.len() as int));
                assert(tail.skip(rest.len() as int) =~= path.skip(text.len() as int));
            } else if text.is_prefix_of(path) {
                assert forall|i: int| 0 <= i < rest.len() implies rest[i] == tail[i] by {
                    assert(text[i + 1] == path.subrange(0, text.len() as int)[i + 1]);
                }
                assert(rest =~= tail.subrange(0, rest.len() as int));
            }
        } else if text.is_prefix_of(path) {
            assert(text[0] == path.subrange(0, text.len() as int)[0]);
        }
    }
}

/// Preference is decided behind what two routes share.
proof fn lemma_prefers_behind(text: Seq<char>, a: Seq<Symbol>, b: Seq<Symbol>)
    ensures
        prefers(literals(text) + a, literals(text) + b) == prefers(a, b),
    decreases text.len(),
{
    if text.len() == 0 {
        assert(literals(text) + a =~= a);
        assert(literals(text) + b =~= b);
    } else {
        let rest = text.skip(1);
        let x = literals(text) + a;
        let y = literals(text) + b;
        assert(x.skip(1) =~= literals(rest) + a);
        assert(y.skip(1) =~= literals(rest) + b);
        assert(x[0] == y[0]);
        lemma_prefers_behind(rest, a, b);
    }
}

/// Of two routes at most one is preferred to the other.
pub proof fn lemma_prefers_one_way(a: Seq<Symbol>, b: Seq<Symbol>)
    requires
        prefers(a, b),
    ensures
        !prefers(b, a),
        a != b,
    decreases a.len(),
{
    if a[0] == b[0] {
        lemma_prefers_one_way(a.skip(1), b.skip(1));
    }
}

/// What a lookup finds is registered: the route that it goes by matches the path, the tree holds
/// handlers for that route, the parameters are what the route matches, and the handler is that
/// for the method. The names are those that were registered with the route, if there are any.
pub proof fn law_found_is_registered<V>(t: Tree<V>, method: Seq<char>, path: Seq<char>)
    requires
        t.strict(),
    ensures
        find(t, method, path) matches Some(h) ==> {
            &&& captures(h.route, path) == Some(h.params)
            &&& leaf_at(t, h.route) == Some(h.leaf)
            &&& h.leaf.handlers.len() > 0
            &&& h.value == value_of(h.leaf.handlers, method)
            &&& listed(h.leaf.names).len() > 0 ==> h.names == listed(h.leaf.names)
        },
    decreases t,
{
    if path.len() > 0 {
        if let Some(h) = find_static(t, method, path) {
            let child = t.children[t.indices.index_of(path[0])];
            let rest = path.skip(child.path.len() as int);
            law_found_is_registered(child, method, rest);
            let inner = find(child, method, rest)->0;
            lemma_captures_literals(child.path, inner.route, path);
            lemma_literals(child.path, Seq::empty(), inner.route);
            assert(h.route[0] == literals(child.path)[0]);
            assert(leaf_at(t, h.route) == leaf_at(child, inner.route));
        }
        if let Some(h) = find_wildcard(t, method, path) {
            let n = segment_len(path) as int;
            lemma_segment(path);
            let w = t.wildcard->0;
            law_found_is_registered(*w, method, path.skip(n));
            let inner = find(*w, method, path.skip(n))->0;
            assert(h.route.skip(1) =~= inner.route);
            assert(h.route[0] == Symbol::Wildcard);
        }
        if let Some(h) = find_catch_all(t, method, path) {
            assert(h.route[0] == Symbol::CatchAll);
        }
    }
}

/// The best of what matches is found. If a route with handlers matches the path, something is
/// found; if it has a handler for the method, what is found has one too. What is found is that
/// route or one that is preferred to it, unless only what is found has a handler for the method.
pub proof fn law_best_route_is_found<V>(
    t: Tree<V>,
    method: Seq<char>,
    path: Seq<char>,
    route: Seq<Symbol>,
)
    requires
        t.strict(),
        captures(route, path) is Some,
        held_at(t, route).handlers.len() > 0,
    ensures
        find(t, method, path) is Some,
        ({
            let h = find(t, method, path)->0;
            let handled = value_of(held_at(t, route).handlers, method) is Some;
            &&& handled ==> h.value is Some
            &&& handled || h.value is None ==> h.route == route || prefers(h.route, route)
        }),
    decreases t,
{
    let found = find(t, method, path);
    let by_static = find_static(t, method, path);
    let by_wildcard = find_wildcard(t, method, path);
    if route.len() > 0 {
        assert(path.len() > 0) by {
            lemma_segment(path);
        }
        if let Some(h) = by_static {
            let child = t.children[t.indices.index_of(path[0])];
            assert(child.path.len() > 0);
            assert(h.route[0] == literals(child.path)[0]);
        }
        if let Some(h) = by_wildcard {
            assert(h.route[0] == Symbol::Wildcard);
        }
        match route[0] {
            Symbol::Literal(c) => {
                let child = t.children[t.indices.index_of(c)];
                assert(t.indices.contains(c));
                assert(literals(child.path).is_prefix_of(route));
                let k = child.path.len() as int;
                let tail = route.skip(k);
                assert(route =~= literals(child.path) + tail);
                lemma_captures_literals(child.path, tail, path);
                assert(held_at(child, tail) == held_at(t, route));
                law_best_route_is_found(child, method, path.skip(k), tail);
                let inner = find(child, method, path.skip(k))->0;
                lemma_prefers_behind(child.path, inner.route, tail);
            },
            Symbol::Wildcard => {
                let n = segment_len(path) as int;
                let w = t.wildcard->0;
                let tail = route.skip(1);
                assert(held_at(*w, tail) == held_at(t, route));
                law_best_route_is_found(*w, method, path.skip(n), tail);
                let inner = find(*w, method, path.skip(n))->0;
                let h = by_wildcard->0;
                assert(h.route.skip(1) =~= inner.route);
                if inner.route == tail {
                    assert(h.route =~= route);
                }
            },
            Symbol::CatchAll => {
                assert(route =~= seq![Symbol::CatchAll]);
            },
        }
    } else {
        assert(route =~= Seq::<Symbol>::empty());
    }
}

/// Nothing is found exactly where no route with handlers matches the path.
pub proof fn law_not_found<V>(t: Tree<V>, method: Seq<char>, path: Seq<char>)
    requires
        t.strict(),
    ensures
        find(t, method, path) is None <==> forall|route: Seq<Symbol>|
            #![trigger held_at(t, route)]
            captures(route, path) is Some ==> held_at(t, route).handlers.len() == 0,
{
    law_found_is_registered(t, method, path);
    match find(t, method, path) {
        Some(h) => {
            assert(held_at(t, h.route).handlers.len() > 0);
        },
        None => {
            assert forall|route: Seq<Symbol>|
                #![trigger held_at(t, route)]
                captures(route, path) is Some implies held_at(t, route).handlers.len() == 0 by {
                if held_at(t, route).handlers.len() > 0 {
                    law_best_route_is_found(t, method, path, route);
                }
            }
        },
    }
}

/// By which route a path is found, and which handler is found for a method, is a matter of which of
/// the routes that match the path have handlers, and which of them have one for the method.
pub proof fn law_lookup_by_values<V>(t: Tree<V>, u: Tree<V>, method: Seq<char>, path: Seq<char>)
    requires
        t.strict(),
        u.strict(),
        forall|route: Seq<Symbol>|
            #![trigger held_at(t, route)]
            #![trigger held_at(u, route)]
            captures(route, path) is Some ==> {
                &&& (held_at(t, route).handlers.len() > 0) == (held_at(u, route).handlers.len() > 0)
                &&& value_of(held_at(t, route).handlers, method) == value_of(
                    held_at(u, route).handlers,
                    method,
                )
            },
    ensures
        match find(t, method, path) {
            Some(h) => find(u, method, path) matches Some(k) && h.route == k.route && h.value
                == k.value && h.params == k.params,
            None => find(u, method, path) is None,
        },
{
    law_found_is_registered(t, method, path);
    law_found_is_registered(u, method, path);
    match (find(t, method, path), find(u, method, path)) {
        (Some(h), Some(k)) => {
            assert(held_at(t, h.route) == h.leaf);
            assert(held_at(u, k.route) == k.leaf);
            law_best_route_is_found(u, method, path, h.route);
            law_best_route_is_found(t, method, path, k.route);
            if h.route != k.route {
                lemma_prefers_one_way(h.route, k.route);
            }
        },
        (Some(h), None) => {
            assert(held_at(t, h.route) == h.leaf);
            law_best_route_is_found(u, method, path, h.route);
        },
        (None, Some(k)) => {
            assert(held_at(u, k.route) == k.leaf);
            law_best_route_is_found(t, method, path, k.route);
        },
        (None, None) => {},
    }
}

/// What is found, down to the handler, is a matter of what is registered for the routes that
/// match the path: in what order it was registered, and what else is, makes no difference.
pub proof fn law_lookup_by_table<V>(t: Tree<V>, u: Tree<V>, method: Seq<char>, path: Seq<char>)
    requires
        t.strict(),
        u.strict(),
        forall|route: Seq<Symbol>|
            #![trigger held_at(t, route)]
            #![trigger held_at(u, route)]
            captures(route, path) is Some ==> held_at(t, route) == held_at(u, route),
    ensures
        match find(t, method, path) {
            Some(h) => find(u, method, path) matches Some(k) && h.route == k.route && h.leaf == k.leaf
                && h.value == k.value && h.params == k.params,
            None => find(u, method, path) is None,
        },
{
    law_lookup_by_values(t, u, method, path);
    law_found_is_registered(t, method, path);
    law_found_is_registered(u, method, path);
    if let Some(h) = find(t, method, path) {
        assert(held_at(t, h.route) == held_at(u, h.route));
    }
}

/// Which handler a method gets is a matter of the handlers for that method on the routes that
/// match the path.
pub proof fn law_handler_by_table<V>(t: Tree<V>, u: Tree<V>, method: Seq<char>, path: Seq<char>)
    requires
        t.strict(),
        u.strict(),
        forall|route: Seq<Symbol>|
            #![trigger held_at(t, route)]
            #![trigger held_at(u, route)]
            captures(route, path) is Some ==> value_of(held_at(t, route).handlers, method)
                == value_of(held_at(u, route).handlers, method),
    ensures
        has_value(find(t, method, path)) == has_value(find(u, method, path)),
        has_value(find(t, method, path)) ==> {
            let h = find(t, method, path)->0;
            let k = find(u, method, path)->0;
            h.route == k.route && h.value == k.value && h.params == k.params
        },
{
    law_found_is_registered(t, method, path);
    law_found_is_registered(u, method, path);
    if has_value(find(t, method, path)) {
        let h = find(t, method, path)->0;
        assert(held_at(t, h.route) == h.leaf);
        assert(value_of(held_at(u, h.route).handlers, method) is Some);
        law_best_route_is_found(u, method, path, h.route);
    }
    if has_value(find(u, method, path)) {
        let k = find(u, method, path)->0;
        assert(held_at(u, k.route) == k.leaf);
        assert(value_of(held_at(t, k.route).handlers, method) is Some);
        law_best_route_is_found(t, method, path, k.route);
        let h = find(t, method, path)->0;
        if h.route != k.route {
            lemma_prefers_one_way(h.route, k.route);
        }
    }
}

/// A wildcard matches a piece of the path that is not empty and holds no slash.
pub proof fn law_wildcards_match_segments(route: Seq<Symbol>, path: Seq<char>)
    requires
        captures(route, path) is Some,
        !route.contains(Symbol::CatchAll),
    ensures
        forall|i: int|
            0 <= i < captures(route, path)->0.len() ==> (#[trigger] captures(route, path)->0[i]).len()
                > 0 && !captures(route, path)->0[i].contains('/'),
    decreases route.len(),
{
    if route.len() > 0 {
        let tail = route.skip(1);
        assert(route.contains(route[0]));
        assert forall|i: int| 0 <= i < tail.len() implies route.contains(tail[i]) by {
            assert(tail[i] == route[i + 1]);
        }
        match route[0] {
            Symbol::Literal(c) => {
                law_wildcards_match_segments(tail, path.skip(1));
            },
            Symbol::Wildcard => {
                let n = segment_len(path) as int;
                lemma_segment(path);
                law_wildcards_match_segments(tail, path.skip(n));
                assert(!path.take(n).contains('/'));
            },
            Symbol::CatchAll => {},
        }
    }
}

/// What a match shows as its pattern: of a catch-all the rest of the path that it matched, of a
/// static text the end of that text. Only a catch-all has a path too.
pub proof fn law_shown_pattern<V>(t: Tree<V>, method: Seq<char>, path: Seq<char>)
    requires
        t.strict(),
    ensures
        find(t, method, path) matches Some(h) ==> {
            &&& h.leaf.catch_all is Some <==> h.route.len() > 0 && h.route.last()
                == Symbol::CatchAll
            &&& h.leaf.catch_all is Some ==> h.params.len() > 0 && h.pattern == h.params.last()
            &&& h.leaf.catch_all is None ==> h.path.len() == 0
            &&& h.route.len() == 0 ==> h.pattern == t.path
            &&& h.route.len() > 0 && h.route.last() is Literal ==> 0 < h.pattern.len()
                <= h.route.len() && literals(h.pattern) == h.route.skip(
                h.route.len() - h.pattern.len(),
            )
        },
    decreases t,
{
    if path.len() > 0 {
        if let Some(h) = find_static(t, method, path) {
            let child = t.children[t.indices.index_of(path[0])];
            let rest = path.skip(child.path.len() as int);
            law_shown_pattern(child, method, rest);
            let inner = find(child, method, rest)->0;
            let front = literals(child.path);
            assert(child.path.len() > 0);
            assert(front.last() == literal(child.path.last()));
            if inner.route.len() == 0 {
                assert(h.route =~= front);
                assert(h.route.skip(0) =~= front);
            } else {
                assert(h.route.last() == inner.route.last());
                if inner.route.last() is Literal {
                    assert(h.route.skip(h.route.len() - h.pattern.len()) =~= inner.route.skip(
                        inner.route.len() - h.pattern.len(),
                    ));
                }
            }
        }
        if let Some(h) = find_wildcard(t, method, path) {
            let n = segment_len(path) as int;
            lemma_segment(path);
            let w = t.wildcard->0;
            law_shown_pattern(*w, method, path.skip(n));
            let inner = find(*w, method, path.skip(n))->0;
            if inner.route.len() > 0 {
                assert(h.route.last() == inner.route.last());
                if inner.route.last() is Literal {
                    assert(h.route.skip(h.route.len() - h.pattern.len()) =~= inner.route.skip(
                        inner.route.len() - h.pattern.len(),
                    ));
                }
            } else {
                assert(h.route =~= seq![Symbol::Wildcard]);
            }
            if inner.params.len() > 0 {
                assert(h.params.last() == inner.params.last());
            }
        }
    }
}

} // verus!
