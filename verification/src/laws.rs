//! What registering a handler does to later lookups and registrations.

use vstd::prelude::*;

use crate::count::{law_priority_counts_values, lemma_bubbled_total};
use crate::lookup::{
    captures, law_best_route_is_found, law_found_is_registered, law_handler_by_table,
    law_lookup_by_table, law_lookup_by_values, lemma_captures_literals, prefers,
};
use crate::method::{law_put_then_value, lemma_method_names, value_of};
use crate::model::{
    add_child, blank_tree, bubbled, counts_values, entered, escape_len, find, grown, has_value,
    is_full, is_taken, leading_name, lemma_static_token, listed, literals, named, names_clash,
    put_child, refused, registered, rejection, split, static_token, swapped, wildcard_of,
    with_handler, with_new_child, Leaf, Registration, Symbol, Tree,
};
use crate::routes::{
    end_of, held_at, law_registered_at, lemma_cut_token, lemma_held_blank, lemma_held_split,
    lemma_held_static, lemma_literals, names_in, route_of, taking,
};
use crate::shape::{
    lemma_add_child, lemma_blank_wf, lemma_child_prefix, lemma_grown_wf, lemma_put_child,
};
use crate::text::{
    common_len, lemma_common, lemma_segment, lemma_segment_is, segment_len, without_start_slash,
};

verus! {

/// Cutting a node in two keeps it strict.
pub proof fn lemma_split_strict<V>(t: Tree<V>, n: nat)
    requires
        t.strict(),
        split(t, n).wf(),
    ensures
        split(t, n).strict(),
{
    if n < t.path.len() {
        let cut = split(t, n);
        let child = Tree { path: t.path.skip(n as int), ..t };
        assert(child.children == t.children);
        assert(child.shaped());
        assert(child.wf());
        assert(child.strict());
        assert(cut.children[0] == child);
    }
}

/// Every static child consumes a character, and so on below.
pub open spec fn strict_children<V>(t: Tree<V>) -> bool {
    forall|k: int|
        #![trigger t.children[k]]
        0 <= k < t.children.len() ==> t.children[k].path.len() > 0 && t.children[k].strict()
}

/// The order of the static children does not matter to whether they are strict.
proof fn lemma_bubbled_strict<V>(t: Tree<V>, i: int)
    requires
        strict_children(t),
        0 <= i < t.children.len(),
    ensures
        strict_children(bubbled(t, i)),
    decreases i,
{
    if i > 0 && t.children[i].priority > t.children[i - 1].priority {
        let s = swapped(t, i - 1, i);
        assert forall|k: int| 0 <= k < s.children.len() implies (#[trigger] s.children[k]).path.len()
            > 0 && s.children[k].strict() by {
            if k == i {
                assert(s.children[k] == t.children[i - 1]);
            } else if k == i - 1 {
                assert(s.children[k] == t.children[i]);
            } else {
                assert(s.children[k] == t.children[k]);
            }
        }
        lemma_bubbled_strict(s, i - 1);
    }
}

/// Putting a strict static child in the place of another one keeps a node strict.
pub proof fn lemma_put_child_strict<V>(t: Tree<V>, i: int, child: Tree<V>)
    requires
        t.strict(),
        0 <= i < t.children.len(),
        child.strict(),
        child.path.len() > 0,
        crate::model::fragment_fits(t.indices[i], child.path),
    ensures
        put_child(t, i, child).strict(),
{
    let u = Tree { children: t.children.update(i, child), ..t };
    assert forall|k: int| 0 <= k < u.children.len() implies (#[trigger] u.children[k]).path.len()
        > 0 && u.children[k].strict() by {
        if k != i {
            assert(u.children[k] == t.children[k]);
        }
    }
    lemma_bubbled_strict(u, i);
    lemma_bubbled_total(u, i);
    lemma_put_child(t, i, child);
    assert(put_child(t, i, child).children == bubbled(u, i).children);
}

/// A new strict static child keeps a node strict.
pub proof fn lemma_add_child_strict<V>(t: Tree<V>, index: char, child: Tree<V>)
    requires
        t.strict(),
        !t.indices.contains(index),
        child.strict(),
        child.path.len() > 0,
        crate::model::fragment_fits(index, child.path),
    ensures
        add_child(t, index, child).strict(),
{
    let u = with_new_child(t, index, child);
    let n = t.children.len() as int;
    assert forall|k: int| 0 <= k < u.children.len() implies (#[trigger] u.children[k]).strict()
        && u.children[k].path.len() > 0 by {
        if k < t.children.len() {
            assert(u.children[k] == t.children[k]);
        }
    }
    lemma_bubbled_strict(u, n);
    lemma_bubbled_total(u, n);
    lemma_add_child(t, index, child);
    assert(add_child(t, index, child).children == bubbled(u, n).children);
}

/// Registering a handler keeps a tree strict.
pub proof fn law_grown_strict<V>(
    t: Tree<V>,
    pattern: Seq<char>,
    names: Option<Seq<Seq<char>>>,
    in_token: bool,
    r: Registration<V>,
)
    requires
        t.strict(),
    ensures
        grown(t, pattern, names, in_token, r).strict(),
    decreases pattern.len(), t,
{
    let g = grown(t, pattern, names, in_token, r);
    lemma_grown_wf(t, pattern, names, in_token, r);
    if pattern.len() == 0 {
        assert(g.children == t.children);
    } else if pattern[0] == '*' && !in_token {
        assert(g.children == t.children);
    } else if pattern[0] == ':' && !in_token {
        let name = leading_name(pattern);
        lemma_segment(pattern);
        lemma_blank_wf::<V>(name);
        law_grown_strict(
            wildcard_of(t, name),
            pattern.skip(segment_len(pattern) as int),
            Some(listed(names).push(name)),
            false,
            r,
        );
        assert(g.children == t.children);
    } else {
        let skipped = escape_len(pattern, in_token);
        let token = static_token(pattern, in_token);
        lemma_static_token(pattern, in_token);
        if t.indices.contains(token[0]) {
            lemma_child_prefix(t, token);
            let i = t.indices.index_of(token[0]);
            let child = t.children[i];
            let n = common_len(child.path, token);
            let rest = pattern.skip((skipped + n) as int);
            let below = grown(split(child, n), rest, names, token[0] != '/', r);
            lemma_split_strict(child, n);
            lemma_grown_wf(split(child, n), rest, names, token[0] != '/', r);
            law_grown_strict(split(child, n), rest, names, token[0] != '/', r);
            lemma_put_child_strict(t, i, below);
        } else {
            let rest = pattern.skip((skipped + token.len()) as int);
            let below = grown(blank_tree(token), rest, names, token[0] != '/', r);
            lemma_blank_wf::<V>(token);
            lemma_grown_wf(blank_tree(token), rest, names, token[0] != '/', r);
            law_grown_strict(blank_tree(token), rest, names, token[0] != '/', r);
            lemma_add_child_strict(t, token[0], below);
        }
    }
}

/// A handler is registered for its method, and for `HEAD` if it is a `GET` handler that may serve
/// `HEAD` requests and there is no handler for them. All other methods keep theirs.
pub proof fn law_registered_handlers<V>(leaf: Leaf<V>, r: Registration<V>, method: Seq<char>)
    ensures
        value_of(registered(leaf, r).handlers, method) == if method == r.method {
            Some(r.value)
        } else if method == "HEAD"@ && r.method == "GET"@ && r.head_can_use_get && value_of(
            leaf.handlers,
            "HEAD"@,
        ) is None {
            Some(r.value)
        } else {
            value_of(leaf.handlers, method)
        },
        registered(leaf, r).handlers.len() > 0,
{
    lemma_method_names();
    let explicit = with_handler(leaf, r.method, r.value, false, r.add_slash);
    law_put_then_value(leaf.handlers, r.method, r.value, method);
    law_put_then_value(leaf.handlers, r.method, r.value, "HEAD"@);
    law_put_then_value(explicit.handlers, "HEAD"@, r.value, method);
}

/// The mark of a trailing slash is set by the first registration with a slash, and stays.
pub proof fn law_slash_mark_stays<V>(leaf: Leaf<V>, r: Registration<V>)
    ensures
        registered(leaf, r).add_slash == (leaf.add_slash || r.add_slash),
{
}

/// A `HEAD` handler that came with a `GET` handler can be replaced by an explicit one; every other
/// handler that was registered stands.
pub proof fn law_only_implicit_head_is_replaced<V>(leaf: Leaf<V>, r: Registration<V>)
    ensures
        is_taken(registered(leaf, r), r.method),
        r.method == "GET"@ && r.head_can_use_get && value_of(leaf.handlers, "HEAD"@) is None
            ==> !is_taken(registered(leaf, r), "HEAD"@),
{
    lemma_method_names();
    law_registered_handlers(leaf, r, r.method);
    law_put_then_value(leaf.handlers, r.method, r.value, "HEAD"@);
}

/// A handler is found by every path that its pattern matches, with the parameters that the
/// pattern matches, unless another pattern that is preferred to it matches the path too and has a
/// handler for the method.
pub proof fn law_registered_is_found<V>(
    t: Tree<V>,
    pattern: Seq<char>,
    r: Registration<V>,
    path: Seq<char>,
)
    requires
        t.strict(),
        captures(route_of(without_start_slash(pattern), false), path) is Some,
        forall|other: Seq<Symbol>|
            #![trigger held_at(t, other)]
            prefers(other, route_of(without_start_slash(pattern), false)) && captures(other, path)
                is Some ==> value_of(held_at(t, other).handlers, r.method) is None,
    ensures
        ({
            let route = route_of(without_start_slash(pattern), false);
            let names = names_in(without_start_slash(pattern), None, false);
            let end = end_of(without_start_slash(pattern), false);
            let found = find(entered(t, pattern, r), r.method, path);
            &&& found is Some
            &&& found->0.value == Some(r.value)
            &&& found->0.route == route
            &&& Some(found->0.params) == captures(route, path)
            &&& found->0.leaf == taking(held_at(t, route), end, names, r)
        }),
{
    let stripped = without_start_slash(pattern);
    let route = route_of(stripped, false);
    let g = entered(t, pattern, r);
    law_grown_strict(t, stripped, None, false, r);
    law_registered_at(t, stripped, None, false, r, route);
    let before = held_at(t, route);
    law_registered_handlers(before, r, r.method);
    law_registered_handlers(
        named(before, names_in(stripped, None, false)),
        r,
        r.method,
    );
    law_best_route_is_found(g, r.method, path, route);
    law_found_is_registered(g, r.method, path);
    let h = find(g, r.method, path)->0;
    if h.route != route {
        law_registered_at(t, stripped, None, false, r, h.route);
        assert(held_at(g, h.route) == held_at(t, h.route));
    }
}

/// A pattern without wildcards, catch-alls and escapes stands for the characters it is made of.
pub proof fn lemma_plain_route(pattern: Seq<char>, in_token: bool)
    requires
        !pattern.contains(':'),
        !pattern.contains('*'),
        !pattern.contains('\\'),
    ensures
        route_of(pattern, in_token) == literals(pattern),
        names_in(pattern, None, in_token) is None,
    decreases pattern.len(),
{
    if pattern.len() == 0 {
        assert(literals(pattern) =~= Seq::<Symbol>::empty());
    } else {
        assert(pattern.contains(pattern[0]));
        lemma_static_token(pattern, in_token);
        let token = static_token(pattern, in_token);
        let rest = pattern.skip(token.len() as int);
        assert(escape_len(pattern, in_token) == 0);
        assert forall|i: int| 0 <= i < rest.len() implies pattern.contains(rest[i]) by {
            assert(rest[i] == pattern[token.len() + i]);
        }
        lemma_plain_route(rest, token[0] != '/');
        assert(token =~= pattern.take(token.len() as int));
        assert(literals(token) + literals(rest) =~= literals(pattern));
    }
}

/// No route is preferred to static text.
pub proof fn lemma_static_is_first(other: Seq<Symbol>, text: Seq<char>)
    ensures
        !prefers(other, literals(text)),
    decreases text.len(),
{
    if text.len() > 0 && other.len() > 0 && other[0] == literals(text)[0] {
        assert(literals(text).skip(1) =~= literals(text.skip(1)));
        lemma_static_is_first(other.skip(1), text.skip(1));
    }
}

/// A handler for a static path is found by that path, whatever else is registered.
pub proof fn law_static_path_is_found<V>(t: Tree<V>, path: Seq<char>, r: Registration<V>)
    requires
        t.strict(),
        !path.contains(':'),
        !path.contains('*'),
        !path.contains('\\'),
    ensures
        find(entered(t, path, r), r.method, without_start_slash(path)) matches Some(h) && h.value
            == Some(r.value) && h.params.len() == 0,
{
    let stripped = without_start_slash(path);
    assert forall|i: int| 0 <= i < stripped.len() implies path.contains(stripped[i]) by {
        if stripped != path {
            assert(stripped[i] == path[i + 1]);
        }
    }
    lemma_plain_route(stripped, false);
    let route = literals(stripped);
    lemma_captures_literals(stripped, Seq::empty(), stripped);
    assert(literals(stripped) + Seq::<Symbol>::empty() =~= route);
    assert(stripped.is_prefix_of(stripped)) by {
        assert(stripped.subrange(0, stripped.len() as int) =~= stripped);
    }
    assert forall|other: Seq<Symbol>|
        #![trigger held_at(t, other)]
        prefers(other, route) && captures(other, stripped) is Some implies value_of(
        held_at(t, other).handlers,
        r.method,
    ) is None by {
        lemma_static_is_first(other, stripped);
    }
    law_registered_is_found(t, path, r, stripped);
}

/// Lookups of paths that a pattern does not match are not touched by registering it.
pub proof fn law_other_paths_kept<V>(
    t: Tree<V>,
    pattern: Seq<char>,
    r: Registration<V>,
    method: Seq<char>,
    path: Seq<char>,
)
    requires
        t.strict(),
        captures(route_of(without_start_slash(pattern), false), path) is None,
    ensures
        match find(t, method, path) {
            Some(h) => find(entered(t, pattern, r), method, path) matches Some(k) && h.route
                == k.route && h.leaf == k.leaf && h.value == k.value && h.params == k.params,
            None => find(entered(t, pattern, r), method, path) is None,
        },
{
    let stripped = without_start_slash(pattern);
    let g = entered(t, pattern, r);
    law_grown_strict(t, stripped, None, false, r);
    assert forall|route: Seq<Symbol>|
        #![trigger held_at(t, route)]
        #![trigger held_at(g, route)]
        captures(route, path) is Some implies held_at(t, route) == held_at(g, route) by {
        law_registered_at(t, stripped, None, false, r, route);
    }
    law_lookup_by_table(t, g, method, path);
}

/// The handlers of other methods are not touched by registering a handler, but for `HEAD`, which a
/// `GET` handler may serve.
pub proof fn law_other_methods_kept<V>(
    t: Tree<V>,
    pattern: Seq<char>,
    r: Registration<V>,
    method: Seq<char>,
    path: Seq<char>,
)
    requires
        t.strict(),
        method != r.method,
        method != "HEAD"@ || r.method != "GET"@ || !r.head_can_use_get,
    ensures
        ({
            let before = find(t, method, path);
            let after = find(entered(t, pattern, r), method, path);
            &&& has_value(after) == has_value(before)
            &&& has_value(before) ==> after->0.route == before->0.route && after->0.value
                == before->0.value && after->0.params == before->0.params
        }),
{
    let stripped = without_start_slash(pattern);
    let g = entered(t, pattern, r);
    law_grown_strict(t, stripped, None, false, r);
    assert forall|route: Seq<Symbol>|
        #![trigger held_at(t, route)]
        #![trigger held_at(g, route)]
        captures(route, path) is Some implies value_of(held_at(t, route).handlers, method)
        == value_of(held_at(g, route).handlers, method) by {
        law_registered_at(t, stripped, None, false, r, route);
        law_registered_handlers(held_at(t, route), r, method);
        law_registered_handlers(
            named(held_at(t, route), names_in(stripped, None, false)),
            r,
            method,
        );
    }
    law_handler_by_table(t, g, method, path);
}

/// Two handlers that are for different routes or for different methods can be registered in either
/// order: every lookup goes by the same route and finds the same handler. Where the routes differ,
/// it finds the same in all.
pub proof fn law_order_makes_no_difference<V>(
    t: Tree<V>,
    pattern: Seq<char>,
    r: Registration<V>,
    other: Seq<char>,
    s: Registration<V>,
    method: Seq<char>,
    path: Seq<char>,
)
    requires
        t.strict(),
        route_of(without_start_slash(pattern), false) != route_of(
            without_start_slash(other),
            false,
        ) || r.method != s.method,
    ensures
        ({
            let first = find(entered(entered(t, pattern, r), other, s), method, path);
            let second = find(entered(entered(t, other, s), pattern, r), method, path);
            match first {
                Some(h) => second matches Some(k) && h.route == k.route && h.value == k.value
                    && h.params == k.params && (route_of(without_start_slash(pattern), false)
                    != route_of(without_start_slash(other), false) ==> h.leaf == k.leaf),
                None => second is None,
            }
        }),
{
    let a = without_start_slash(pattern);
    let b = without_start_slash(other);
    let ta = entered(t, pattern, r);
    let tb = entered(t, other, s);
    law_grown_strict(t, a, None, false, r);
    law_grown_strict(t, b, None, false, s);
    law_grown_strict(ta, b, None, false, s);
    law_grown_strict(tb, a, None, false, r);
    let first = entered(ta, other, s);
    let second = entered(tb, pattern, r);
    assert forall|route: Seq<Symbol>|
        #![trigger held_at(first, route)]
        #![trigger held_at(second, route)]
        captures(route, path) is Some implies {
        &&& (held_at(first, route).handlers.len() > 0) == (held_at(second, route).handlers.len()
            > 0)
        &&& value_of(held_at(first, route).handlers, method) == value_of(
            held_at(second, route).handlers,
            method,
        )
        &&& route_of(a, false) != route_of(b, false) ==> held_at(first, route) == held_at(
            second,
            route,
        )
    } by {
        law_registered_at(t, a, None, false, r, route);
        law_registered_at(t, b, None, false, s, route);
        law_registered_at(ta, b, None, false, s, route);
        law_registered_at(tb, a, None, false, r, route);
        if route_of(a, false) == route_of(b, false) && route == route_of(a, false) {
            let leaf = held_at(t, route);
            law_taking_handlers(leaf, end_of(a, false), names_in(a, None, false), r, method);
            law_taking_handlers(leaf, end_of(a, false), names_in(a, None, false), r, "HEAD"@);
            law_taking_handlers(leaf, end_of(b, false), names_in(b, None, false), s, method);
            law_taking_handlers(leaf, end_of(b, false), names_in(b, None, false), s, "HEAD"@);
            let after_r = held_at(ta, route);
            let after_s = held_at(tb, route);
            law_taking_handlers(after_r, end_of(b, false), names_in(b, None, false), s, method);
            law_taking_handlers(after_s, end_of(a, false), names_in(a, None, false), r, method);
            lemma_method_names();
        }
    }
    law_lookup_by_values(first, second, method, path);
    if route_of(a, false) != route_of(b, false) {
        law_lookup_by_table(first, second, method, path);
    }
}

/// What `law_registered_handlers` states, of a leaf that takes names too.
pub proof fn law_taking_handlers<V>(
    leaf: Leaf<V>,
    end: Option<Seq<char>>,
    names: Option<Seq<Seq<char>>>,
    r: Registration<V>,
    method: Seq<char>,
)
    ensures
        value_of(taking(leaf, end, names, r).handlers, method) == if method == r.method {
            Some(r.value)
        } else if method == "HEAD"@ && r.method == "GET"@ && r.head_can_use_get && value_of(
            leaf.handlers,
            "HEAD"@,
        ) is None {
            Some(r.value)
        } else {
            value_of(leaf.handlers, method)
        },
        taking(leaf, end, names, r).handlers.len() > 0,
{
    law_registered_handlers(leaf, r, method);
    law_registered_handlers(named(leaf, names), r, method);
}

/// A handler is refused where its route has one for the method that cannot be replaced.
pub proof fn law_taken_is_refused<V>(
    t: Tree<V>,
    pattern: Seq<char>,
    names: Option<Seq<Seq<char>>>,
    in_token: bool,
    method: Seq<char>,
)
    requires
        t.wf(),
        is_taken(held_at(t, route_of(pattern, in_token)), method),
    ensures
        rejection(t, pattern, names, in_token, method) is Some,
    decreases pattern.len(), t,
{
    let route = route_of(pattern, in_token);
    if pattern.len() == 0 {
    } else if pattern[0] == '*' && !in_token {
        assert(route[0] == Symbol::CatchAll);
    } else if pattern[0] == ':' && !in_token {
        let name = leading_name(pattern);
        let rest = pattern.skip(segment_len(pattern) as int);
        lemma_segment(pattern);
        assert(route[0] == Symbol::Wildcard);
        assert(route.skip(1) =~= route_of(rest, false));
        law_taken_is_refused(
            wildcard_of(t, name),
            rest,
            Some(listed(names).push(name)),
            false,
            method,
        );
    } else {
        let skipped = escape_len(pattern, in_token);
        let token = static_token(pattern, in_token);
        let c = token[0];
        lemma_static_token(pattern, in_token);
        lemma_cut_token(pattern, in_token, token.len());
        assert(token.take(token.len() as int) =~= token);
        assert(route[0] == literals(token)[0]);
        lemma_held_static(t, route, c);
        assert(t.indices.contains(c));
        lemma_child_prefix(t, token);
        let child = t.children[t.indices.index_of(c)];
        let n = common_len(child.path, token);
        lemma_common(child.path, token);
        let cut = split(child, n);
        let rest = pattern.skip((skipped + n) as int);
        lemma_cut_token(pattern, in_token, n);
        if n > 0 {
            lemma_held_split(child, n, route);
        }
        assert(cut.path == token.take(n as int));
        lemma_literals(cut.path, Seq::empty(), route_of(rest, c != '/'));
        assert(held_at(t, route) == held_at(cut, route_of(rest, c != '/')));
        law_taken_is_refused(cut, rest, names, c != '/', method);
    }
}

/// What was registered cannot be registered again.
pub proof fn law_second_registration_is_refused<V>(
    t: Tree<V>,
    pattern: Seq<char>,
    r: Registration<V>,
)
    requires
        t.wf(),
    ensures
        refused(entered(t, pattern, r), pattern, r.method) is Some,
{
    let stripped = without_start_slash(pattern);
    let route = route_of(stripped, false);
    let names = names_in(stripped, None, false);
    law_registered_at(t, stripped, None, false, r, route);
    lemma_grown_wf(t, stripped, None, false, r);
    law_only_implicit_head_is_replaced(held_at(t, route), r);
    law_only_implicit_head_is_replaced(named(held_at(t, route), names), r);
    law_taken_is_refused(entered(t, pattern, r), stripped, None, false, r.method);
}

/// The static children of every node stand in the order of their priorities, highest first.
pub open spec fn by_priority<V>(t: Tree<V>) -> bool
    decreases t,
{
    &&& forall|i: int, j: int|
        #![trigger t.children[i], t.children[j]]
        0 <= i < j < t.children.len() ==> t.children[i].priority >= t.children[j].priority
    &&& forall|i: int|
        #![trigger t.children[i]]
        0 <= i < t.children.len() ==> by_priority(t.children[i])
    &&& t.wildcard matches Some(w) ==> by_priority(*w)
}

/// The order by priority is a matter of what is below a node.
pub proof fn lemma_by_priority_fields<V>(t: Tree<V>, u: Tree<V>)
    requires
        by_priority(t),
        t.children == u.children,
        t.wildcard == u.wildcard,
    ensures
        by_priority(u),
{
}

/// Moving forward a child whose priority has grown brings the children in order.
proof fn lemma_bubbled_by_priority<V>(t: Tree<V>, i: int)
    requires
        0 <= i < t.children.len(),
        forall|a: int, b: int|
            #![trigger t.children[a], t.children[b]]
            0 <= a < b < t.children.len() && b != i ==> t.children[a].priority
                >= t.children[b].priority,
        forall|a: int|
            #![trigger t.children[a]]
            0 <= a < t.children.len() ==> by_priority(t.children[a]),
        t.wildcard matches Some(w) ==> by_priority(*w),
    ensures
        by_priority(bubbled(t, i)),
    decreases i,
{
    if i > 0 && t.children[i].priority > t.children[i - 1].priority {
        let s = swapped(t, i - 1, i);
        assert forall|a: int| 0 <= a < s.children.len() implies by_priority(
            #[trigger] s.children[a],
        ) by {
            if a == i {
                assert(s.children[a] == t.children[i - 1]);
            } else if a == i - 1 {
                assert(s.children[a] == t.children[i]);
            } else {
                assert(s.children[a] == t.children[a]);
            }
        }
        assert forall|a: int, b: int|
            #![trigger s.children[a], s.children[b]]
            0 <= a < b < s.children.len() && b != i - 1 implies s.children[a].priority
            >= s.children[b].priority by {
            let from_a = if a == i {
                i - 1
            } else if a == i - 1 {
                i
            } else {
                a
            };
            let from_b = if b == i {
                i - 1
            } else {
                b
            };
            assert(s.children[a] == t.children[from_a]);
            assert(s.children[b] == t.children[from_b]);
        }
        lemma_bubbled_by_priority(s, i - 1);
    } else {
        assert forall|a: int, b: int|
            #![trigger t.children[a], t.children[b]]
            0 <= a < b < t.children.len() implies t.children[a].priority
            >= t.children[b].priority by {
            if b == i && a < i - 1 {
                assert(t.children[a].priority >= t.children[i - 1].priority);
            }
        }
    }
}

/// Cutting a node in two keeps the order.
pub proof fn lemma_split_by_priority<V>(t: Tree<V>, n: nat)
    requires
        by_priority(t),
    ensures
        by_priority(split(t, n)),
{
    if n < t.path.len() {
        let lower = Tree { path: t.path.skip(n as int), ..t };
        lemma_by_priority_fields(t, lower);
        assert(split(t, n).children[0] == lower);
    }
}

/// Registering a handler keeps the priority of every node the number of values registered in its
/// sub nodes.
pub proof fn law_entered_counts_values<V>(t: Tree<V>, path: Seq<char>, r: Registration<V>)
    requires
        t.wf(),
    ensures
        counts_values(entered(t, path, r)),
{
    lemma_grown_wf(t, without_start_slash(path), None, false, r);
    law_priority_counts_values(entered(t, path, r));
}

/// Registering a handler keeps the nodes in the order of their priorities.
pub proof fn law_order_by_priority_kept<V>(
    t: Tree<V>,
    pattern: Seq<char>,
    names: Option<Seq<Seq<char>>>,
    in_token: bool,
    r: Registration<V>,
)
    requires
        t.wf(),
        by_priority(t),
    ensures
        by_priority(grown(t, pattern, names, in_token, r)),
    decreases pattern.len(), t,
{
    let g = grown(t, pattern, names, in_token, r);
    if pattern.len() == 0 {
        assert(g.children == t.children);
    } else if pattern[0] == '*' && !in_token {
        assert(g.children == t.children);
    } else if pattern[0] == ':' && !in_token {
        let name = leading_name(pattern);
        lemma_segment(pattern);
        law_order_by_priority_kept(
            wildcard_of(t, name),
            pattern.skip(segment_len(pattern) as int),
            Some(listed(names).push(name)),
            false,
            r,
        );
        assert(g.children == t.children);
    } else {
        let skipped = escape_len(pattern, in_token);
        let token = static_token(pattern, in_token);
        lemma_static_token(pattern, in_token);
        if t.indices.contains(token[0]) {
            lemma_child_prefix(t, token);
            let i = t.indices.index_of(token[0]);
            let child = t.children[i];
            let n = common_len(child.path, token);
            let cut = split(child, n);
            let rest = pattern.skip((skipped + n) as int);
            assert(by_priority(child));
            lemma_split_by_priority(child, n);
            let below = grown(cut, rest, names, token[0] != '/', r);
            law_order_by_priority_kept(cut, rest, names, token[0] != '/', r);
            lemma_grown_wf(cut, rest, names, token[0] != '/', r);
            lemma_put_by_priority(t, i, below);
        } else {
            let rest = pattern.skip((skipped + token.len()) as int);
            let fresh = blank_tree::<V>(token);
            let below = grown(fresh, rest, names, token[0] != '/', r);
            lemma_blank_wf::<V>(token);
            law_order_by_priority_kept(fresh, rest, names, token[0] != '/', r);
            lemma_add_by_priority(t, token[0], below);
        }
    }
}

/// Putting a static child in the place of one that has no higher priority keeps the order.
pub proof fn lemma_put_by_priority<V>(t: Tree<V>, i: int, below: Tree<V>)
    requires
        by_priority(t),
        by_priority(below),
        0 <= i < t.children.len(),
        t.children[i].priority <= below.priority,
    ensures
        by_priority(put_child(t, i, below)),
{
    let u = Tree { children: t.children.update(i, below), ..t };
    assert forall|a: int| 0 <= a < u.children.len() implies by_priority(#[trigger] u.children[a]) by {
        if a != i {
            assert(u.children[a] == t.children[a]);
        }
    }
    assert forall|a: int, b: int|
        #![trigger u.children[a], u.children[b]]
        0 <= a < b < u.children.len() && b != i implies u.children[a].priority
        >= u.children[b].priority by {
        assert(u.children[b] == t.children[b]);
        assert(t.children[a].priority >= t.children[b].priority);
    }
    lemma_bubbled_by_priority(u, i);
    lemma_by_priority_fields(bubbled(u, i), put_child(t, i, below));
}

/// A new static child keeps the order.
pub proof fn lemma_add_by_priority<V>(t: Tree<V>, index: char, below: Tree<V>)
    requires
        by_priority(t),
        by_priority(below),
    ensures
        by_priority(add_child(t, index, below)),
{
    let u = with_new_child(t, index, below);
    let n = t.children.len() as int;
    assert forall|a: int| 0 <= a < u.children.len() implies by_priority(#[trigger] u.children[a]) by {
        if a < n {
            assert(u.children[a] == t.children[a]);
        }
    }
    assert forall|a: int, b: int|
        #![trigger u.children[a], u.children[b]]
        0 <= a < b < u.children.len() && b != n implies u.children[a].priority
        >= u.children[b].priority by {
        assert(u.children[a] == t.children[a]);
        assert(u.children[b] == t.children[b]);
    }
    lemma_bubbled_by_priority(u, n);
    lemma_by_priority_fields(bubbled(u, n), add_child(t, index, below));
}

/// Number of wildcards and catch-alls in a route.
pub open spec fn variables(route: Seq<Symbol>) -> nat
    decreases route.len(),
{
    if route.len() == 0 {
        0
    } else if route[0] is Literal {
        variables(route.skip(1))
    } else {
        1 + variables(route.skip(1))
    }
}

/// Literals in front of a route add no variable.
proof fn lemma_variables_behind(text: Seq<char>, route: Seq<Symbol>)
    ensures
        variables(literals(text) + route) == variables(route),
    decreases text.len(),
{
    let whole = literals(text) + route;
    if text.len() == 0 {
        assert(whole =~= route);
    } else {
        assert(whole[0] == Symbol::Literal(text[0]));
        assert(whole.skip(1) =~= literals(text.skip(1)) + route);
        lemma_variables_behind(text.skip(1), route);
    }
}

/// A pattern has a name for each variable of its route.
pub proof fn lemma_names_and_variables(
    pattern: Seq<char>,
    names: Option<Seq<Seq<char>>>,
    in_token: bool,
)
    ensures
        listed(names_in(pattern, names, in_token)).len() == listed(names).len() + variables(
            route_of(pattern, in_token),
        ),
    decreases pattern.len(),
{
    let route = route_of(pattern, in_token);
    if pattern.len() == 0 {
    } else if pattern[0] == '*' && !in_token {
        assert(route[0] == Symbol::CatchAll);
        assert(route.skip(1) =~= Seq::<Symbol>::empty());
        assert(variables(route) == 1 + variables(route.skip(1)));
        assert(variables(route.skip(1)) == 0);
    } else if pattern[0] == ':' && !in_token {
        lemma_segment(pattern);
        let rest = pattern.skip(segment_len(pattern) as int);
        lemma_names_and_variables(rest, Some(listed(names).push(leading_name(pattern))), false);
        assert(route[0] == Symbol::Wildcard);
        assert(route.skip(1) =~= route_of(rest, false));
        assert(variables(route) == 1 + variables(route.skip(1)));
    } else {
        lemma_static_token(pattern, in_token);
        let token = static_token(pattern, in_token);
        let rest = pattern.skip((escape_len(pattern, in_token) + token.len()) as int);
        lemma_names_and_variables(rest, names, token[0] != '/');
        lemma_variables_behind(token, route_of(rest, token[0] != '/'));
    }
}

/// A match has a value for each variable of its route.
pub proof fn lemma_captures_and_variables(route: Seq<Symbol>, path: Seq<char>)
    requires
        captures(route, path) is Some,
    ensures
        captures(route, path)->0.len() == variables(route),
    decreases route.len(),
{
    if route.len() > 0 {
        match route[0] {
            Symbol::Literal(_) => {
                lemma_captures_and_variables(route.skip(1), path.skip(1));
            },
            Symbol::Wildcard => {
                lemma_captures_and_variables(route.skip(1), path.skip(segment_len(path) as int));
            },
            Symbol::CatchAll => {
                assert(route.skip(1) =~= Seq::<Symbol>::empty());
            },
        }
    }
}

/// The parameters that are found for a pattern have the names that the pattern gives them, one
/// name for each.
pub proof fn law_parameters_are_named<V>(
    t: Tree<V>,
    pattern: Seq<char>,
    r: Registration<V>,
    path: Seq<char>,
)
    requires
        t.strict(),
        refused(t, pattern, r.method) is None,
        captures(route_of(without_start_slash(pattern), false), path) is Some,
        forall|other: Seq<Symbol>|
            #![trigger held_at(t, other)]
            prefers(other, route_of(without_start_slash(pattern), false)) && captures(other, path)
                is Some ==> value_of(held_at(t, other).handlers, r.method) is None,
    ensures
        ({
            let names = listed(names_in(without_start_slash(pattern), None, false));
            let found = find(entered(t, pattern, r), r.method, path);
            &&& found is Some
            &&& found->0.value == Some(r.value)
            &&& found->0.params.len() == names.len()
            &&& names.len() > 0 ==> found->0.names == names
        }),
{
    let stripped = without_start_slash(pattern);
    let route = route_of(stripped, false);
    let all = names_in(stripped, None, false);
    let g = entered(t, pattern, r);
    law_registered_is_found(t, pattern, r, path);
    lemma_names_and_variables(stripped, None, false);
    lemma_captures_and_variables(route, path);
    law_grown_strict(t, stripped, None, false, r);
    law_found_is_registered(g, r.method, path);
    law_accepted_names_agree(t, stripped, None, false, r.method);
    let h = find(g, r.method, path)->0;
    if listed(all).len() > 0 {
        assert(h.leaf.names == all);
    }
}

/// Whether nothing follows the catch-all of a pattern, if it has one.
pub open spec fn ends_well(pattern: Seq<char>, in_token: bool) -> bool
    decreases pattern.len(),
{
    if pattern.len() == 0 {
        true
    } else if pattern[0] == '*' && !in_token {
        segment_len(pattern) == pattern.len()
    } else if pattern[0] == ':' && !in_token {
        let rest = pattern.skip(segment_len(pattern) as int);
        proof {
            lemma_segment(pattern);
        }
        ends_well(rest, false)
    } else {
        let token = static_token(pattern, in_token);
        let rest = pattern.skip((escape_len(pattern, in_token) + token.len()) as int);
        proof {
            lemma_static_token(pattern, in_token);
        }
        ends_well(rest, token[0] != '/')
    }
}

/// Whether the names of a pattern go with what its route has: those of the wildcards, or that of
/// the catch-all.
pub open spec fn names_agree<V>(
    leaf: Leaf<V>,
    end: Option<Seq<char>>,
    names: Option<Seq<Seq<char>>>,
) -> bool {
    match end {
        Some(name) => leaf.catch_all is None || leaf.catch_all == Some(name),
        None => names_clash(leaf.names, names) is None,
    }
}

/// A static token can be read in two parts when it is asked whether nothing follows a catch-all.
pub proof fn lemma_cut_ends_well(pattern: Seq<char>, in_token: bool, n: nat)
    requires
        pattern.len() > 0,
        in_token || (pattern[0] != '*' && pattern[0] != ':'),
        n <= static_token(pattern, in_token).len(),
        n == 0 ==> pattern[0] == '/',
    ensures
        ends_well(pattern, in_token) == ends_well(
            pattern.skip((escape_len(pattern, in_token) + n) as int),
            static_token(pattern, in_token)[0] != '/',
        ),
{
    let skipped = escape_len(pattern, in_token);
    let token = static_token(pattern, in_token);
    let rest = pattern.skip((skipped + n) as int);
    lemma_static_token(pattern, in_token);
    lemma_segment(pattern);
    if n == token.len() {
    } else if n == 0 {
        assert(rest =~= pattern);
    } else {
        let end = pattern.skip((skipped + token.len()) as int);
        assert(rest[0] == token[n as int]);
        assert(token.contains(token[n as int]));
        lemma_segment_is(rest, (token.len() - n) as nat);
        let tail = static_token(rest, true);
        assert(tail =~= token.skip(n as int));
        assert(rest.skip(tail.len() as int) =~= end);
    }
}

/// What is free is accepted: where the route of a pattern has no handler for the method that cannot
/// be replaced, the names agree, nothing follows a catch-all and the values can be counted, a
/// handler is not refused.
#[verifier::spinoff_prover]
#[verifier::rlimit(40)]
pub proof fn law_free_is_accepted<V>(
    t: Tree<V>,
    pattern: Seq<char>,
    names: Option<Seq<Seq<char>>>,
    in_token: bool,
    method: Seq<char>,
)
    requires
        t.wf(),
        !is_full(t),
        ends_well(pattern, in_token),
        !is_taken(held_at(t, route_of(pattern, in_token)), method),
        names_agree(
            held_at(t, route_of(pattern, in_token)),
            end_of(pattern, in_token),
            names_in(pattern, names, in_token),
        ),
    ensures
        rejection(t, pattern, names, in_token, method) is None,
    decreases pattern.len(), t,
{
    let route = route_of(pattern, in_token);
    if pattern.len() == 0 {
    } else if pattern[0] == '*' && !in_token {
        assert(route[0] == Symbol::CatchAll);
        assert(pattern.take(pattern.len() as int) =~= pattern);
    } else if pattern[0] == ':' && !in_token {
        let name = leading_name(pattern);
        let rest = pattern.skip(segment_len(pattern) as int);
        let node = wildcard_of(t, name);
        lemma_segment(pattern);
        lemma_blank_wf::<V>(name);
        assert(route[0] == Symbol::Wildcard);
        assert(route.skip(1) =~= route_of(rest, false));
        lemma_held_blank::<V>(name, route.skip(1));
        assert(held_at(t, route) == held_at(node, route.skip(1)));
        law_free_is_accepted(node, rest, Some(listed(names).push(name)), false, method);
    } else {
        let skipped = escape_len(pattern, in_token);
        let token = static_token(pattern, in_token);
        let c = token[0];
        lemma_static_token(pattern, in_token);
        lemma_cut_token(pattern, in_token, token.len());
        assert(token.take(token.len() as int) =~= token);
        assert(route[0] == literals(token)[0]);
        lemma_held_static(t, route, c);
        if t.indices.contains(c) {
            lemma_child_prefix(t, token);
            let child = t.children[t.indices.index_of(c)];
            let n = common_len(child.path, token);
            lemma_common(child.path, token);
            let cut = split(child, n);
            let rest = pattern.skip((skipped + n) as int);
            lemma_cut_token(pattern, in_token, n);
            lemma_cut_ends_well(pattern, in_token, n);
            if n > 0 {
                lemma_held_split(child, n, route);
            }
            assert(cut.path == token.take(n as int));
            lemma_literals(cut.path, Seq::empty(), route_of(rest, c != '/'));
            assert(held_at(t, route) == held_at(cut, route_of(rest, c != '/')));
            assert(names_in(pattern, names, in_token) == names_in(rest, names, c != '/'));
            law_free_is_accepted(cut, rest, names, c != '/', method);
        } else {
            let rest = pattern.skip((skipped + token.len()) as int);
            let fresh = blank_tree::<V>(token);
            lemma_blank_wf::<V>(token);
            lemma_held_blank::<V>(token, route_of(rest, c != '/'));
            law_free_is_accepted(fresh, rest, names, c != '/', method);
        }
    }
}

/// Where a pattern is accepted, its names agree with what its route has, and nothing follows its
/// catch-all.
#[verifier::spinoff_prover]
#[verifier::rlimit(40)]
pub proof fn law_accepted_names_agree<V>(
    t: Tree<V>,
    pattern: Seq<char>,
    names: Option<Seq<Seq<char>>>,
    in_token: bool,
    method: Seq<char>,
)
    requires
        t.wf(),
        rejection(t, pattern, names, in_token, method) is None,
    ensures
        names_agree(
            held_at(t, route_of(pattern, in_token)),
            end_of(pattern, in_token),
            names_in(pattern, names, in_token),
        ),
        ends_well(pattern, in_token),
    decreases pattern.len(), t,
{
    let route = route_of(pattern, in_token);
    if pattern.len() == 0 {
    } else if pattern[0] == '*' && !in_token {
        assert(route[0] == Symbol::CatchAll);
        lemma_segment(pattern);
        assert(pattern.take(pattern.len() as int) =~= pattern);
    } else if pattern[0] == ':' && !in_token {
        let name = leading_name(pattern);
        let rest = pattern.skip(segment_len(pattern) as int);
        lemma_segment(pattern);
        lemma_blank_wf::<V>(name);
        assert(route[0] == Symbol::Wildcard);
        assert(route.skip(1) =~= route_of(rest, false));
        law_accepted_names_agree(
            wildcard_of(t, name),
            rest,
            Some(listed(names).push(name)),
            false,
            method,
        );
        lemma_held_blank::<V>(name, route.skip(1));
        assert(held_at(t, route) == held_at(wildcard_of(t, name), route.skip(1)));
    } else {
        let skipped = escape_len(pattern, in_token);
        let token = static_token(pattern, in_token);
        let c = token[0];
        lemma_static_token(pattern, in_token);
        lemma_cut_token(pattern, in_token, token.len());
        assert(token.take(token.len() as int) =~= token);
        assert(route[0] == literals(token)[0]);
        lemma_held_static(t, route, c);
        if t.indices.contains(c) {
            lemma_child_prefix(t, token);
            let child = t.children[t.indices.index_of(c)];
            let n = common_len(child.path, token);
            lemma_common(child.path, token);
            let cut = split(child, n);
            let rest = pattern.skip((skipped + n) as int);
            lemma_cut_token(pattern, in_token, n);
            lemma_cut_ends_well(pattern, in_token, n);
            if n > 0 {
                lemma_held_split(child, n, route);
            }
            assert(cut.path == token.take(n as int));
            lemma_literals(cut.path, Seq::empty(), route_of(rest, c != '/'));
            assert(held_at(t, route) == held_at(cut, route_of(rest, c != '/')));
            assert(names_in(pattern, names, in_token) == names_in(rest, names, c != '/'));
            law_accepted_names_agree(cut, rest, names, c != '/', method);
        } else {
            let rest = pattern.skip((skipped + token.len()) as int);
            lemma_blank_wf::<V>(token);
            lemma_held_blank::<V>(token, route_of(rest, c != '/'));
            law_accepted_names_agree(blank_tree::<V>(token), rest, names, c != '/', method);
        }
    }
}

/// A catch-all ends the route of a pattern exactly where it ends the pattern.
pub proof fn lemma_end_of_route(pattern: Seq<char>, in_token: bool)
    ensures
        end_of(pattern, in_token) is Some <==> route_of(pattern, in_token).contains(
            Symbol::CatchAll,
        ),
    decreases pattern.len(),
{
    let route = route_of(pattern, in_token);
    if pattern.len() == 0 {
    } else if pattern[0] == '*' && !in_token {
        assert(route[0] == Symbol::CatchAll);
    } else if pattern[0] == ':' && !in_token {
        lemma_segment(pattern);
        let rest = pattern.skip(segment_len(pattern) as int);
        lemma_end_of_route(rest, false);
        lemma_contains_behind(seq![Symbol::Wildcard], route_of(rest, false));
    } else {
        lemma_static_token(pattern, in_token);
        let token = static_token(pattern, in_token);
        let rest = pattern.skip((escape_len(pattern, in_token) + token.len()) as int);
        lemma_end_of_route(rest, token[0] != '/');
        lemma_contains_behind(literals(token), route_of(rest, token[0] != '/'));
    }
}

/// A catch-all stands in a route behind a piece without one if it stands in the rest.
proof fn lemma_contains_behind(a: Seq<Symbol>, b: Seq<Symbol>)
    requires
        forall|i: int| 0 <= i < a.len() ==> a[i] != Symbol::CatchAll,
    ensures
        (a + b).contains(Symbol::CatchAll) == b.contains(Symbol::CatchAll),
{
    if b.contains(Symbol::CatchAll) {
        let i = b.index_of(Symbol::CatchAll);
        assert((a + b)[a.len() + i] == Symbol::CatchAll);
    }
    if (a + b).contains(Symbol::CatchAll) {
        let i = (a + b).index_of(Symbol::CatchAll);
        assert(b[i - a.len()] == Symbol::CatchAll);
    }
}

/// A pattern names something exactly where its route has a variable.
pub proof fn lemma_names_some(pattern: Seq<char>, names: Option<Seq<Seq<char>>>, in_token: bool)
    ensures
        names_in(pattern, names, in_token) is Some <==> names is Some || variables(
            route_of(pattern, in_token),
        ) > 0,
    decreases pattern.len(),
{
    let route = route_of(pattern, in_token);
    if pattern.len() == 0 {
    } else if pattern[0] == '*' && !in_token {
        assert(route[0] == Symbol::CatchAll);
        assert(variables(route) == 1 + variables(route.skip(1)));
    } else if pattern[0] == ':' && !in_token {
        lemma_segment(pattern);
        let rest = pattern.skip(segment_len(pattern) as int);
        lemma_names_some(rest, Some(listed(names).push(leading_name(pattern))), false);
        assert(route[0] == Symbol::Wildcard);
        assert(variables(route) == 1 + variables(route.skip(1)));
    } else {
        lemma_static_token(pattern, in_token);
        let token = static_token(pattern, in_token);
        let rest = pattern.skip((escape_len(pattern, in_token) + token.len()) as int);
        lemma_names_some(rest, names, token[0] != '/');
        lemma_variables_behind(token, route_of(rest, token[0] != '/'));
    }
}

} // verus!
