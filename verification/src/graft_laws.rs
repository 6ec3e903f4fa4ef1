//! What attaching a tree below a path does to the routes.

use vstd::prelude::*;

use crate::children::{child_at, lemma_add_child_child, lemma_not_before, lemma_put_child_child};
use crate::count::law_priority_counts_values;
use crate::graft::{
    attached, attached_leaf, extended, extension_refused, extent, graft_rejection, grafted, is_root,
    lemma_extent_meeting, lemma_grafted_wf, lemma_meeting, lemma_merge, lemma_merge_children,
    lemma_placed, lemma_prefixed_wf, meeting, merge, merge_children, merged_child, placed, prefixed,
    prefixed_leaf, with_handlers,
};
use crate::laws::{
    by_priority, lemma_add_by_priority, lemma_add_child_strict, lemma_by_priority_fields,
    lemma_captures_and_variables, lemma_names_and_variables, lemma_names_some, lemma_plain_route,
    lemma_put_by_priority, lemma_put_child_strict, lemma_split_by_priority, lemma_split_strict,
    lemma_static_is_first, variables,
};
use crate::lookup::{
    captures, law_best_route_is_found, law_found_is_registered, law_lookup_by_table,
    lemma_captures_literals, lemma_prefers_one_way, prefers,
};
use crate::method::{law_merged_value, lemma_entry_at, lemma_merged_distinct, value_of};
use crate::model::{
    add_child, blank_tree, counts_values, escape_len, find, has_value, is_taken, leading_name,
    lemma_static_token, listed, literal, literals, names_clash, put_child, split, static_token,
    weight, wildcard_of, Leaf, Symbol, Tree,
};
use crate::routes::{
    held_at, lemma_cut_child_held, lemma_cut_token, lemma_held_blank, lemma_held_split,
    lemma_held_static, lemma_new_child_held, lemma_same_below, names_in, route_of,
};
use crate::shape::{lemma_blank_wf, lemma_child_prefix};
use crate::text::{
    common_len, lemma_common, lemma_common_is, lemma_segment, segment_len, without_start_slash,
};

verus! {

/// The node that a path leads to, as it is when something is attached to it.
pub open spec fn base<V>(t: Tree<V>, path: Seq<char>, in_token: bool) -> Tree<V>
    decreases path.len(), t,
    when t.wf()
{
    if path.len() == 0 {
        t
    } else if path[0] == ':' && !in_token {
        proof {
            lemma_segment(path);
        }
        base(wildcard_of(t, leading_name(path)), path.skip(segment_len(path) as int), false)
    } else {
        let skipped = escape_len(path, in_token);
        let token = static_token(path, in_token);
        proof {
            lemma_static_token(path, in_token);
        }
        if t.indices.contains(token[0]) {
            let child = t.children[t.indices.index_of(token[0])];
            let n = common_len(child.path, token);
            proof {
                lemma_common(child.path, token);
            }
            base(split(child, n), path.skip((skipped + n) as int), token[0] != '/')
        } else {
            base(
                blank_tree::<V>(token),
                path.skip((skipped + token.len()) as int),
                token[0] != '/',
            )
        }
    }
}

/// What `lemma_grafted_at` states.
pub open spec fn grafts_at<V>(
    t: Tree<V>,
    path: Seq<char>,
    names: Option<Seq<Seq<char>>>,
    in_token: bool,
    sub: Tree<V>,
    route: Seq<Symbol>,
) -> bool {
    let prefix = route_of(path, in_token);
    let b = base(t, path, in_token);
    let tail = route.skip(prefix.len() as int);
    let g = grafted(t, path, names, in_token, sub);
    &&& b.wf()
    &&& prefix.is_prefix_of(route) ==> held_at(t, route) == held_at(b, tail) && held_at(g, route)
        == held_at(attached(b, names_in(path, names, in_token), sub), tail)
    &&& !prefix.is_prefix_of(route) ==> held_at(g, route) == held_at(t, route)
}

/// Attaching a tree below a path changes what is held for the routes that begin as the path does,
/// as if it had been attached to the node there; it changes no other route.
#[verifier::spinoff_prover]
#[verifier::rlimit(40)]
pub proof fn lemma_grafted_at<V>(
    t: Tree<V>,
    path: Seq<char>,
    names: Option<Seq<Seq<char>>>,
    in_token: bool,
    sub: Tree<V>,
    route: Seq<Symbol>,
)
    requires
        t.wf(),
        is_root(sub),
        graft_rejection(t, path, names, in_token, sub.leaf.names, weight(sub)) is None,
    ensures
        grafts_at(t, path, names, in_token, sub, route),
    decreases path.len(), t, 1nat,
{
    if path.len() == 0 {
        assert(route.skip(0) =~= route);
        assert(route_of(path, in_token).is_prefix_of(route)) by {
            assert(Seq::<Symbol>::empty() =~= route.subrange(0, 0));
        }
    } else if path[0] == ':' && !in_token {
        lemma_grafted_wildcard(t, path, names, sub, route);
    } else if t.indices.contains(static_token(path, in_token)[0]) {
        lemma_grafted_child(t, path, names, in_token, sub, route);
    } else {
        lemma_grafted_new_child(t, path, names, in_token, sub, route);
    }
}

/// What `lemma_grafted_at` states of a path that begins with a wildcard.
#[verifier::spinoff_prover]
#[verifier::rlimit(40)]
proof fn lemma_grafted_wildcard<V>(
    t: Tree<V>,
    path: Seq<char>,
    names: Option<Seq<Seq<char>>>,
    sub: Tree<V>,
    route: Seq<Symbol>,
)
    requires
        t.wf(),
        is_root(sub),
        path.len() > 0,
        path[0] == ':',
        graft_rejection(t, path, names, false, sub.leaf.names, weight(sub)) is None,
    ensures
        grafts_at(t, path, names, false, sub, route),
    decreases path.len(), t, 0nat,
{
    let g = grafted(t, path, names, false, sub);
    let prefix = route_of(path, false);
    let name = leading_name(path);
    let rest = path.skip(segment_len(path) as int);
    let more = Some(listed(names).push(name));
    lemma_segment(path);
    lemma_blank_wf::<V>(name);
    lemma_same_below(t, g, route);
    assert(prefix == seq![Symbol::Wildcard] + route_of(rest, false));
    let w = wildcard_of(t, name);
    let below = route_of(rest, false);
    lemma_grafted_at(w, rest, more, false, sub, route.skip(1));
    if route.len() > 0 && route[0] == Symbol::Wildcard {
        let tail = route.skip(1);
        lemma_prefix_split(seq![Symbol::Wildcard], below, route);
        lemma_held_blank::<V>(name, tail);
        assert(held_at(g, route) == held_at(*g.wildcard->0, tail));
        assert(held_at(t, route) == held_at(w, tail));
        if prefix.is_prefix_of(route) {
            assert(route.skip(prefix.len() as int) =~= tail.skip(below.len() as int));
        }
    } else {
        assert(!prefix.is_prefix_of(route)) by {
            if prefix.is_prefix_of(route) {
                assert(prefix[0] == route.subrange(0, prefix.len() as int)[0]);
            }
        }
    }
}

/// A route begins with two pieces if it begins with the first and its rest with the second.
proof fn lemma_prefix_split(a: Seq<Symbol>, b: Seq<Symbol>, route: Seq<Symbol>)
    requires
        a.is_prefix_of(route) || (a.len() == 1 && route.len() > 0 && route[0] == a[0]),
    ensures
        (a + b).is_prefix_of(route) == b.is_prefix_of(route.skip(a.len() as int)),
{
    let tail = route.skip(a.len() as int);
    let whole = a + b;
    assert(a.is_prefix_of(route)) by {
        if !a.is_prefix_of(route) {
            assert(a =~= route.subrange(0, 1));
        }
    }
    if whole.is_prefix_of(route) {
        assert forall|i: int| 0 <= i < b.len() implies b[i] == tail[i] by {
            assert(whole[a.len() + i] == route.subrange(0, whole.len() as int)[a.len() + i]);
        }
        assert(b =~= tail.subrange(0, b.len() as int));
    }
    if b.is_prefix_of(tail) {
        assert forall|i: int| 0 <= i < whole.len() implies whole[i] == route[i] by {
            if i < a.len() {
                assert(a[i] == route.subrange(0, a.len() as int)[i]);
            } else {
                assert(b[i - a.len()] == tail.subrange(0, b.len() as int)[i - a.len()]);
            }
        }
        assert(whole =~= route.subrange(0, whole.len() as int));
    }
}

/// A route that does not begin with a piece does not begin with more than it.
proof fn lemma_not_prefix(a: Seq<Symbol>, b: Seq<Symbol>, route: Seq<Symbol>)
    requires
        !a.is_prefix_of(route),
    ensures
        !(a + b).is_prefix_of(route),
{
    if (a + b).is_prefix_of(route) {
        assert forall|i: int| 0 <= i < a.len() implies a[i] == route[i] by {
            assert((a + b)[i] == route.subrange(0, (a + b).len() as int)[i]);
        }
        assert(a =~= route.subrange(0, a.len() as int));
    }
}

/// What `lemma_grafted_at` states of a path whose static text a child shares.
#[verifier::spinoff_prover]
#[verifier::rlimit(40)]
proof fn lemma_grafted_child<V>(
    t: Tree<V>,
    path: Seq<char>,
    names: Option<Seq<Seq<char>>>,
    in_token: bool,
    sub: Tree<V>,
    route: Seq<Symbol>,
)
    requires
        t.wf(),
        is_root(sub),
        path.len() > 0,
        in_token || path[0] != ':',
        t.indices.contains(static_token(path, in_token)[0]),
        graft_rejection(t, path, names, in_token, sub.leaf.names, weight(sub)) is None,
    ensures
        grafts_at(t, path, names, in_token, sub, route),
    decreases path.len(), t, 0nat,
{
    let g = grafted(t, path, names, in_token, sub);
    let prefix = route_of(path, in_token);
    let skipped = escape_len(path, in_token);
    let token = static_token(path, in_token);
    let c = token[0];
    lemma_static_token(path, in_token);
    lemma_child_prefix(t, token);
    let i = t.indices.index_of(c);
    let child = t.children[i];
    let n = common_len(child.path, token);
    lemma_common(child.path, token);
    let cut = split(child, n);
    let rest = path.skip((skipped + n) as int);
    let below = grafted(cut, rest, names, c != '/', sub);
    lemma_grafted_wf(cut, rest, names, c != '/', sub);
    assert(g == put_child(t, i, below));
    assert(cut.path == token.take(n as int));
    lemma_cut_token(path, in_token, n);
    let end = route_of(rest, c != '/');
    assert(prefix == literals(cut.path) + end);
    let tail = route.skip(n as int);
    let b = base(t, path, in_token);
    let all = names_in(path, names, in_token);
    assert(b == base(cut, rest, c != '/'));
    assert(all == names_in(rest, names, c != '/'));
    assert(graft_rejection(cut, rest, names, c != '/', sub.leaf.names, weight(sub)) is None);
    lemma_grafted_at(cut, rest, names, c != '/', sub, tail);
    assert(prefix.len() > 0 && prefix[0] == Symbol::Literal(c)) by {
        lemma_cut_token(path, in_token, token.len());
        assert(literals(token.take(token.len() as int))[0] == Symbol::Literal(c));
    }
    lemma_cut_child_held(t, c, n, below, route);
    lemma_graft_step(literals(cut.path), end, route, c);
}

/// A route that begins with two pieces begins with the first, and its rest with the second.
proof fn lemma_graft_step(a: Seq<Symbol>, b: Seq<Symbol>, route: Seq<Symbol>, c: char)
    requires
        (a + b).len() > 0,
        (a + b)[0] == Symbol::Literal(c),
    ensures
        ({
            let via = route.len() > 0 && route[0] == Symbol::Literal(c) && a.is_prefix_of(route);
            let tail = route.skip(a.len() as int);
            &&& (a + b).is_prefix_of(route) ==> via && b.is_prefix_of(tail) && route.skip(
                (a + b).len() as int,
            ) == tail.skip(b.len() as int)
            &&& via && b.is_prefix_of(tail) ==> (a + b).is_prefix_of(route)
        }),
{
    if (a + b).is_prefix_of(route) {
        assert((a + b)[0] == route.subrange(0, (a + b).len() as int)[0]);
        if !a.is_prefix_of(route) {
            lemma_not_prefix(a, b, route);
        }
        lemma_prefix_split(a, b, route);
        assert(route.skip((a + b).len() as int) =~= route.skip(a.len() as int).skip(
            b.len() as int,
        ));
    }
    if a.is_prefix_of(route) {
        lemma_prefix_split(a, b, route);
    }
}

/// What `lemma_grafted_at` states of a path whose static text no child shares.
#[verifier::spinoff_prover]
#[verifier::rlimit(40)]
proof fn lemma_grafted_new_child<V>(
    t: Tree<V>,
    path: Seq<char>,
    names: Option<Seq<Seq<char>>>,
    in_token: bool,
    sub: Tree<V>,
    route: Seq<Symbol>,
)
    requires
        t.wf(),
        is_root(sub),
        path.len() > 0,
        in_token || path[0] != ':',
        !t.indices.contains(static_token(path, in_token)[0]),
        graft_rejection(t, path, names, in_token, sub.leaf.names, weight(sub)) is None,
    ensures
        grafts_at(t, path, names, in_token, sub, route),
    decreases path.len(), t, 0nat,
{
    let g = grafted(t, path, names, in_token, sub);
    let prefix = route_of(path, in_token);
    let skipped = escape_len(path, in_token);
    let token = static_token(path, in_token);
    let c = token[0];
    lemma_static_token(path, in_token);
    let rest = path.skip((skipped + token.len()) as int);
    let fresh = blank_tree::<V>(token);
    lemma_blank_wf::<V>(token);
    let below = grafted(fresh, rest, names, c != '/', sub);
    lemma_grafted_wf(fresh, rest, names, c != '/', sub);
    assert(g == add_child(t, c, below));
    let end = route_of(rest, c != '/');
    assert(prefix == literals(token) + end);
    let tail = route.skip(token.len() as int);
    let b = base(t, path, in_token);
    let all = names_in(path, names, in_token);
    assert(b == base(fresh, rest, c != '/'));
    assert(all == names_in(rest, names, c != '/'));
    assert(graft_rejection(fresh, rest, names, c != '/', sub.leaf.names, weight(sub)) is None);
    lemma_grafted_at(fresh, rest, names, c != '/', sub, tail);
    lemma_new_child_held(t, below, c, route);
    lemma_held_blank::<V>(token, tail);
    assert((literals(token) + end)[0] == Symbol::Literal(c));
    lemma_graft_step(literals(token), end, route, c);
    if literals(token).is_prefix_of(route) {
        assert(literals(token)[0] == route.subrange(0, token.len() as int)[0]);
    }
}

/// Giving names puts them in front of those of every route with handlers, and changes nothing else.
proof fn lemma_prefixed_held<V>(t: Tree<V>, names: Seq<Seq<char>>, route: Seq<Symbol>)
    ensures
        held_at(prefixed(t, names), route) == prefixed_leaf(held_at(t, route), names),
    decreases t,
{
    let s = prefixed(t, names);
    if route.len() > 0 {
        match route[0] {
            Symbol::Literal(c) => {
                lemma_held_static(t, route, c);
                lemma_held_static(s, route, c);
                if t.indices.contains(c) && t.indices.index_of(c) < t.children.len() {
                    let i = t.indices.index_of(c);
                    let child = t.children[i];
                    assert(child_at(s, c) == Some(s.children[i]));
                    lemma_prefixed_held(child, names, route.skip(child.path.len() as int));
                    assert(s.children[i].path == child.path);
                }
            },
            Symbol::Wildcard => {
                if let Some(w) = t.wildcard {
                    lemma_prefixed_held(*w, names, route.skip(1));
                }
            },
            Symbol::CatchAll => {},
        }
    }
}

/// A tree made of two gives for every route and method the handler of the second one, and that of
/// the first where the second has none.
#[verifier::spinoff_prover]
#[verifier::rlimit(40)]
pub proof fn law_merge_values<V>(a: Tree<V>, b: Tree<V>, route: Seq<Symbol>, method: Seq<char>)
    requires
        a.strict(),
        b.strict(),
    ensures
        value_of(held_at(merge(a, b), route).handlers, method) == either(
            value_of(held_at(b, route).handlers, method),
            value_of(held_at(a, route).handlers, method),
        ),
    decreases extent(a) + extent(b),
{
    let m = merge(a, b);
    lemma_merge(a, b);
    if route.len() == 0 {
        law_merged_value(a.leaf.handlers, b.leaf.handlers, method);
    } else {
        match route[0] {
            Symbol::Literal(c) => {
                lemma_held_static(a, route, c);
                lemma_held_static(b, route, c);
                lemma_held_static(m, route, c);
                assert(b.indices.take(b.children.len() as int) =~= b.indices);
                assert(child_at(m, c) == merged_child(a, b, b.children.len(), c));
                match (child_at(a, c), child_at(b, c)) {
                    (Some(x), Some(y)) => {
                        let i = a.indices.index_of(c);
                        let j = b.indices.index_of(c);
                        let k = common_len(x.path, y.path);
                        lemma_common(x.path, y.path);
                        lemma_meeting(x, y, c);
                        lemma_extent_meeting(a, b, i, j);
                        lemma_held_split(x, k, route);
                        lemma_held_split(y, k, route);
                        lemma_split_strict(x, k);
                        lemma_split_strict(y, k);
                        lemma_merge(split(x, k), split(y, k));
                        let tail = route.skip(k as int);
                        law_merge_values(split(x, k), split(y, k), tail, method);
                    },
                    _ => {},
                }
            },
            Symbol::Wildcard => match (a.wildcard, b.wildcard) {
                (Some(x), Some(y)) => {
                    law_merge_values(*x, *y, route.skip(1), method);
                    assert(*m.wildcard->0 == merge(*x, *y));
                },
                _ => {},
            },
            Symbol::CatchAll => match (a.catch_all, b.catch_all) {
                (Some(x), Some(y)) => {
                    law_merged_value(x.leaf.handlers, y.leaf.handlers, method);
                },
                _ => {},
            },
        }
    }
}

/// A tree made of two gives for every route the names of the second one, and those of the first
/// where the second has none.
#[verifier::spinoff_prover]
#[verifier::rlimit(40)]
pub proof fn law_merge_names<V>(a: Tree<V>, b: Tree<V>, route: Seq<Symbol>)
    requires
        a.strict(),
        b.strict(),
    ensures
        held_at(merge(a, b), route).names == either(
            held_at(b, route).names,
            held_at(a, route).names,
        ),
    decreases extent(a) + extent(b),
{
    let m = merge(a, b);
    lemma_merge(a, b);
    if route.len() > 0 {
        match route[0] {
            Symbol::Literal(c) => {
                lemma_held_static(a, route, c);
                lemma_held_static(b, route, c);
                lemma_held_static(m, route, c);
                assert(b.indices.take(b.children.len() as int) =~= b.indices);
                assert(child_at(m, c) == merged_child(a, b, b.children.len(), c));
                match (child_at(a, c), child_at(b, c)) {
                    (Some(x), Some(y)) => {
                        let i = a.indices.index_of(c);
                        let j = b.indices.index_of(c);
                        let k = common_len(x.path, y.path);
                        lemma_common(x.path, y.path);
                        lemma_meeting(x, y, c);
                        lemma_extent_meeting(a, b, i, j);
                        lemma_held_split(x, k, route);
                        lemma_held_split(y, k, route);
                        lemma_split_strict(x, k);
                        lemma_split_strict(y, k);
                        lemma_merge(split(x, k), split(y, k));
                        law_merge_names(split(x, k), split(y, k), route.skip(k as int));
                    },
                    _ => {},
                }
            },
            Symbol::Wildcard => match (a.wildcard, b.wildcard) {
                (Some(x), Some(y)) => {
                    law_merge_names(*x, *y, route.skip(1));
                    assert(*m.wildcard->0 == merge(*x, *y));
                },
                _ => {},
            },
            Symbol::CatchAll => {},
        }
    }
}

/// The first value, or else the second.
pub open spec fn either<V>(first: Option<V>, second: Option<V>) -> Option<V> {
    match first {
        Some(value) => Some(value),
        None => second,
    }
}

/// Two trees made one are strict if both are.
pub proof fn lemma_merge_strict<V>(a: Tree<V>, b: Tree<V>)
    requires
        a.strict(),
        b.strict(),
    ensures
        merge(a, b).strict(),
    decreases extent(a) + extent(b), b.children.len() + 1,
{
    let m = merge(a, b);
    lemma_merge(a, b);
    lemma_merge_children_strict(a, b, b.children.len());
    lemma_merge_children(a, b, b.children.len());
    assert(m.children == merge_children(a, b, b.children.len()).children);
    match (a.wildcard, b.wildcard) {
        (Some(x), Some(y)) => {
            lemma_merge_strict(*x, *y);
        },
        _ => {},
    }
}

proof fn lemma_merge_children_strict<V>(a: Tree<V>, b: Tree<V>, n: nat)
    requires
        a.strict(),
        b.strict(),
        n <= b.children.len(),
    ensures
        merge_children(a, b, n).strict(),
    decreases extent(a) + extent(b), n,
{
    if n > 0 {
        let part = merge_children(a, b, (n - 1) as nat);
        lemma_merge_children_strict(a, b, (n - 1) as nat);
        lemma_merge_children(a, b, (n - 1) as nat);
        let c = b.indices[n - 1];
        let y = b.children[n - 1];
        lemma_not_before(b.indices, n - 1);
        assert(child_at(part, c) == child_at(a, c));
        if a.indices.contains(c) {
            let x = a.children[a.indices.index_of(c)];
            let k = common_len(x.path, y.path);
            assert(child_at(a, c) == Some(x));
            lemma_common(x.path, y.path);
            lemma_meeting(x, y, c);
            lemma_extent_meeting(a, b, a.indices.index_of(c), n - 1);
            lemma_split_strict(x, k);
            lemma_split_strict(y, k);
            lemma_merge(split(x, k), split(y, k));
            lemma_merge_strict(split(x, k), split(y, k));
            lemma_put_child_strict(part, part.indices.index_of(c), meeting(x, y));
        } else {
            assert(child_at(a, c) is None);
            lemma_add_child_strict(part, c, y);
        }
    }
}

/// Two trees made one stand in the order of priorities if both do.
pub proof fn lemma_merge_by_priority<V>(a: Tree<V>, b: Tree<V>)
    requires
        a.wf(),
        b.wf(),
        by_priority(a),
        by_priority(b),
    ensures
        by_priority(merge(a, b)),
    decreases extent(a) + extent(b), b.children.len() + 1,
{
    let m = merge(a, b);
    let n = b.children.len();
    lemma_merge(a, b);
    lemma_merge_children_by_priority(a, b, n);
    match (a.wildcard, b.wildcard) {
        (Some(x), Some(y)) => {
            lemma_merge_by_priority(*x, *y);
        },
        _ => {},
    }
    lemma_by_priority_fields(
        Tree { wildcard: m.wildcard, ..merge_children(a, b, n) },
        m,
    );
}

proof fn lemma_merge_children_by_priority<V>(a: Tree<V>, b: Tree<V>, n: nat)
    requires
        a.wf(),
        b.wf(),
        by_priority(a),
        by_priority(b),
        n <= b.children.len(),
    ensures
        by_priority(merge_children(a, b, n)),
    decreases extent(a) + extent(b), n,
{
    if n > 0 {
        let part = merge_children(a, b, (n - 1) as nat);
        lemma_merge_children_by_priority(a, b, (n - 1) as nat);
        lemma_merge_children(a, b, (n - 1) as nat);
        let c = b.indices[n - 1];
        let y = b.children[n - 1];
        lemma_not_before(b.indices, n - 1);
        assert(child_at(part, c) == child_at(a, c));
        assert(by_priority(y));
        if a.indices.contains(c) {
            let x = a.children[a.indices.index_of(c)];
            let k = common_len(x.path, y.path);
            assert(child_at(a, c) == Some(x));
            assert(by_priority(x));
            lemma_meeting(x, y, c);
            lemma_extent_meeting(a, b, a.indices.index_of(c), n - 1);
            lemma_split_by_priority(x, k);
            lemma_split_by_priority(y, k);
            lemma_merge(split(x, k), split(y, k));
            lemma_merge_by_priority(split(x, k), split(y, k));
            lemma_put_by_priority(part, part.indices.index_of(c), meeting(x, y));
        } else {
            assert(child_at(a, c) is None);
            lemma_add_by_priority(part, c, y);
        }
    }
}

/// What holds where a tree was attached.
#[verifier::spinoff_prover]
#[verifier::rlimit(40)]
proof fn lemma_attached_at<V>(
    t: Tree<V>,
    names: Option<Seq<Seq<char>>>,
    sub: Tree<V>,
    route: Seq<Symbol>,
    method: Seq<char>,
)
    requires
        t.strict(),
        sub.strict(),
        sub.path == seq!['/'],
    ensures
        ({
            let a = attached(t, names, sub);
            let slash = seq![literal('/')];
            &&& route.len() > 0 && route[0] != Symbol::Literal('/') ==> held_at(a, route)
                == held_at(t, route)
            &&& route.len() > 0 ==> value_of(held_at(a, slash + route).handlers, method) == either(
                value_of(held_at(sub, route).handlers, method),
                value_of(held_at(t, slash + route).handlers, method),
            )
            &&& value_of(held_at(a, slash).handlers, method) == value_of(
                held_at(t, slash).handlers,
                method,
            )
            &&& value_of(a.leaf.handlers, method) == either(
                value_of(sub.leaf.handlers, method),
                value_of(t.leaf.handlers, method),
            )
        }),
{
    let a = attached(t, names, sub);
    let p = placed(names, sub);
    let slash = seq![literal('/')];
    let long = slash + route;
    assert(is_root(sub));
    lemma_placed_at(names, sub, route);
    law_merged_value(t.leaf.handlers, sub.leaf.handlers, method);
    assert(literals(seq!['/']) =~= slash);
    assert(long[0] == literal('/'));
    assert(long.skip(1) =~= route);
    assert(slash.is_prefix_of(long)) by {
        assert(slash =~= long.subrange(0, 1));
    }
    assert(slash.is_prefix_of(slash)) by {
        assert(slash =~= slash.subrange(0, 1));
    }
    assert(slash.skip(1) =~= Seq::<Symbol>::empty());
    lemma_held_static(a, long, '/');
    lemma_held_static(a, slash, '/');
    lemma_held_static(t, long, '/');
    lemma_held_static(t, slash, '/');
    let u = Tree { leaf: attached_leaf(t, names, sub), ..t };
    lemma_same_below(t, u, route);
    let empty = Seq::<Symbol>::empty();
    if t.indices.contains('/') {
        let at = t.indices.index_of('/');
        let previous = t.children[at];
        assert(previous.strict());
        assert(previous.path == seq!['/']) by {
            assert(previous.path.contains(previous.path[0]));
        }
        lemma_common_is(previous.path, p.path, 1);
        assert(meeting(previous, p) == merge(previous, p));
        lemma_merge(previous, p);
        law_merge_values(previous, p, route, method);
        law_merge_values(previous, p, empty, method);
        lemma_put_child_child(u, at, meeting(previous, p), '/');
        if route.len() > 0 && route[0] is Literal {
            let c = route[0]->Literal_0;
            lemma_put_child_child(u, at, meeting(previous, p), c);
            lemma_held_static(t, route, c);
            lemma_held_static(a, route, c);
        }
        assert(value_of(p.leaf.handlers, method) is None);
    } else {
        lemma_add_child_child(u, '/', p, '/');
        if route.len() > 0 && route[0] is Literal {
            let c = route[0]->Literal_0;
            lemma_add_child_child(u, '/', p, c);
            lemma_held_static(t, route, c);
            lemma_held_static(a, route, c);
        }
        assert(child_at(t, '/') is None);
    }
}

/// The names of the routes where a tree was attached.
proof fn lemma_attached_names<V>(
    t: Tree<V>,
    names: Option<Seq<Seq<char>>>,
    sub: Tree<V>,
    route: Seq<Symbol>,
)
    requires
        t.strict(),
        sub.strict(),
        sub.path == seq!['/'],
        route.len() > 0,
    ensures
        held_at(attached(t, names, sub), seq![literal('/')] + route).names == either(
            placed_leaf(held_at(sub, route), names).names,
            held_at(t, seq![literal('/')] + route).names,
        ),
{
    let a = attached(t, names, sub);
    let p = placed(names, sub);
    let slash = seq![literal('/')];
    let long = slash + route;
    assert(is_root(sub));
    lemma_placed_at(names, sub, route);
    assert(literals(seq!['/']) =~= slash);
    assert(long[0] == literal('/'));
    assert(long.skip(1) =~= route);
    assert(slash.is_prefix_of(long)) by {
        assert(slash =~= long.subrange(0, 1));
    }
    lemma_held_static(a, long, '/');
    lemma_held_static(t, long, '/');
    let u = Tree { leaf: attached_leaf(t, names, sub), ..t };
    if t.indices.contains('/') {
        let at = t.indices.index_of('/');
        let previous = t.children[at];
        assert(previous.strict());
        assert(previous.path == seq!['/']) by {
            assert(previous.path.contains(previous.path[0]));
        }
        lemma_common_is(previous.path, p.path, 1);
        assert(meeting(previous, p) == merge(previous, p));
        lemma_merge(previous, p);
        law_merge_names(previous, p, route);
        lemma_put_child_child(u, at, meeting(previous, p), '/');
    } else {
        lemma_add_child_child(u, '/', p, '/');
        assert(child_at(t, '/') is None);
    }
}

/// Where a tree can be attached, the names on the way agree with those of the node there.
proof fn lemma_base_names<V>(
    t: Tree<V>,
    path: Seq<char>,
    names: Option<Seq<Seq<char>>>,
    in_token: bool,
    sub_names: Option<Seq<Seq<char>>>,
    values: nat,
)
    requires
        t.wf(),
        graft_rejection(t, path, names, in_token, sub_names, values) is None,
    ensures
        names_clash(base(t, path, in_token).leaf.names, names_in(path, names, in_token)) is None,
    decreases path.len(), t,
{
    if path.len() == 0 {
    } else if path[0] == ':' && !in_token {
        let name = leading_name(path);
        lemma_segment(path);
        lemma_blank_wf::<V>(name);
        lemma_base_names(
            wildcard_of(t, name),
            path.skip(segment_len(path) as int),
            Some(listed(names).push(name)),
            false,
            sub_names,
            values,
        );
    } else {
        let skipped = escape_len(path, in_token);
        let token = static_token(path, in_token);
        lemma_static_token(path, in_token);
        if t.indices.contains(token[0]) {
            lemma_child_prefix(t, token);
            let child = t.children[t.indices.index_of(token[0])];
            let n = common_len(child.path, token);
            let rest = path.skip((skipped + n) as int);
            lemma_cut_token(path, in_token, n);
            assert(names_in(path, names, in_token) == names_in(rest, names, token[0] != '/'));
            lemma_base_names(split(child, n), rest, names, token[0] != '/', sub_names, values);
        } else {
            let rest = path.skip((skipped + token.len()) as int);
            lemma_blank_wf::<V>(token);
            lemma_base_names(
                blank_tree::<V>(token),
                rest,
                names,
                token[0] != '/',
                sub_names,
                values,
            );
        }
    }
}

/// The leaf with the names of the wildcards on the way, if there are any, in front of its own.
pub open spec fn placed_leaf<V>(leaf: Leaf<V>, names: Option<Seq<Seq<char>>>) -> Leaf<V> {
    match names {
        Some(list) => prefixed_leaf(leaf, list),
        None => leaf,
    }
}

/// The tree as it is attached is strict, and holds below its root what the tree holds, with names.
pub proof fn lemma_placed_at<V>(names: Option<Seq<Seq<char>>>, sub: Tree<V>, route: Seq<Symbol>)
    requires
        sub.strict(),
        is_root(sub),
    ensures
        placed(names, sub).strict(),
        placed(names, sub).path == sub.path,
        placed(names, sub).leaf.handlers.len() == 0,
        route.len() > 0 ==> held_at(placed(names, sub), route) == placed_leaf(
            held_at(sub, route),
            names,
        ),
{
    let bare = with_handlers(sub, Seq::empty());
    lemma_placed(names, sub);
    assert(bare.children == sub.children);
    assert(bare.shaped());
    assert(bare.strict());
    lemma_same_below(sub, bare, route);
    if names is Some {
        lemma_prefixed_strict(bare, names->0);
        lemma_prefixed_held(bare, names->0, route);
    }
}

/// Giving names keeps a tree strict.
proof fn lemma_prefixed_strict<V>(t: Tree<V>, names: Seq<Seq<char>>)
    requires
        t.strict(),
    ensures
        prefixed(t, names).strict(),
    decreases t,
{
    let s = prefixed(t, names);
    lemma_prefixed_wf(t, names);
    assert forall|i: int| 0 <= i < s.children.len() implies (#[trigger] s.children[i]).strict()
        && s.children[i].path.len() > 0 by {
        lemma_prefixed_strict(t.children[i], names);
        lemma_prefixed_wf(t.children[i], names);
    }
    if let Some(w) = t.wildcard {
        lemma_prefixed_strict(*w, names);
    }
}

/// The routes of an attached tree: the route of the path, a slash, and the route in the tree.
pub open spec fn under(path: Seq<char>, route: Seq<Symbol>) -> Seq<Symbol> {
    route_of(without_start_slash(path), false) + (seq![literal('/')] + route)
}

/// Every route below the root of an attached tree is there under the path with its handlers. They
/// take the place of what was registered before for the same route and method; everything else
/// that was registered there stays.
pub proof fn law_extension_values<V>(
    t: Tree<V>,
    path: Seq<char>,
    sub: Tree<V>,
    route: Seq<Symbol>,
    method: Seq<char>,
)
    requires
        t.strict(),
        sub.strict(),
        sub.path == seq!['/'],
        extension_refused(t, path, sub) is None,
        route.len() > 0,
    ensures
        value_of(held_at(extended(t, path, sub), under(path, route)).handlers, method)
            == match value_of(held_at(sub, route).handlers, method) {
            Some(value) => Some(value),
            None => value_of(held_at(t, under(path, route)).handlers, method),
        },
{
    let stripped = without_start_slash(path);
    let prefix = route_of(stripped, false);
    let whole = under(path, route);
    assert(is_root(sub));
    lemma_base_strict(t, stripped, false);
    lemma_grafted_at(t, stripped, None, false, sub, whole);
    lemma_attached_at(
        base(t, stripped, false),
        names_in(stripped, None, false),
        sub,
        route,
        method,
    );
    assert(prefix.is_prefix_of(whole)) by {
        assert(prefix =~= whole.subrange(0, prefix.len() as int));
    }
    assert(whole.skip(prefix.len() as int) =~= seq![literal('/')] + route);
}

/// The handlers at the root of an attached tree serve the path itself, as if they had been
/// registered there: they go before those that were there for it. What is registered for the path
/// with a slash behind it stays.
pub proof fn law_extension_root_values<V>(
    t: Tree<V>,
    path: Seq<char>,
    sub: Tree<V>,
    method: Seq<char>,
)
    requires
        t.strict(),
        sub.strict(),
        sub.path == seq!['/'],
        extension_refused(t, path, sub) is None,
    ensures
        ({
            let prefix = route_of(without_start_slash(path), false);
            let slashed = under(path, Seq::empty());
            let g = extended(t, path, sub);
            &&& value_of(held_at(g, prefix).handlers, method) == match value_of(
                sub.leaf.handlers,
                method,
            ) {
                Some(value) => Some(value),
                None => value_of(held_at(t, prefix).handlers, method),
            }
            &&& value_of(held_at(g, slashed).handlers, method) == value_of(
                held_at(t, slashed).handlers,
                method,
            )
        }),
{
    let stripped = without_start_slash(path);
    let prefix = route_of(stripped, false);
    let whole = under(path, Seq::empty());
    let slash = seq![literal('/')];
    assert(is_root(sub));
    lemma_base_strict(t, stripped, false);
    lemma_grafted_at(t, stripped, None, false, sub, whole);
    lemma_grafted_at(t, stripped, None, false, sub, prefix);
    lemma_attached_at(
        base(t, stripped, false),
        names_in(stripped, None, false),
        sub,
        Seq::empty(),
        method,
    );
    assert(slash + Seq::<Symbol>::empty() =~= slash);
    assert(prefix.is_prefix_of(whole)) by {
        assert(prefix =~= whole.subrange(0, prefix.len() as int));
    }
    assert(prefix.is_prefix_of(prefix)) by {
        assert(prefix =~= prefix.subrange(0, prefix.len() as int));
    }
    assert(whole.skip(prefix.len() as int) =~= slash);
    assert(prefix.skip(prefix.len() as int) =~= Seq::<Symbol>::empty());
}

/// The routes below the root of an attached tree have the names of the wildcards in the path,
/// followed by their own. Where there are none, names that were there stay.
pub proof fn law_extension_names<V>(
    t: Tree<V>,
    path: Seq<char>,
    sub: Tree<V>,
    route: Seq<Symbol>,
)
    requires
        t.strict(),
        sub.strict(),
        sub.path == seq!['/'],
        extension_refused(t, path, sub) is None,
        route.len() > 0,
        held_at(sub, route).handlers.len() > 0,
    ensures
        held_at(extended(t, path, sub), under(path, route)).names == match names_in(
            without_start_slash(path),
            None,
            false,
        ) {
            Some(names) => Some(names + listed(held_at(sub, route).names)),
            None => match held_at(sub, route).names {
                Some(own) => Some(own),
                None => held_at(t, under(path, route)).names,
            },
        },
{
    let stripped = without_start_slash(path);
    let prefix = route_of(stripped, false);
    let whole = under(path, route);
    assert(is_root(sub));
    lemma_base_strict(t, stripped, false);
    lemma_grafted_at(t, stripped, None, false, sub, whole);
    lemma_attached_names(base(t, stripped, false), names_in(stripped, None, false), sub, route);
    assert(prefix.is_prefix_of(whole)) by {
        assert(prefix =~= whole.subrange(0, prefix.len() as int));
    }
    assert(whole.skip(prefix.len() as int) =~= seq![literal('/')] + route);
}

/// The path that a tree is attached at has the names of its wildcards. A `HEAD` handler of the
/// tree's root can be replaced there exactly if it can be replaced in the tree.
pub proof fn law_extension_root_names<V>(t: Tree<V>, path: Seq<char>, sub: Tree<V>)
    requires
        t.strict(),
        sub.strict(),
        sub.path == seq!['/'],
        sub.leaf.names is None,
        extension_refused(t, path, sub) is None,
    ensures
        ({
            let stripped = without_start_slash(path);
            let leaf = held_at(extended(t, path, sub), route_of(stripped, false));
            &&& names_in(stripped, None, false) is Some ==> leaf.names == names_in(
                stripped,
                None,
                false,
            )
            &&& value_of(sub.leaf.handlers, "HEAD"@) is Some ==> is_taken(leaf, "HEAD"@)
                == is_taken(sub.leaf, "HEAD"@)
        }),
{
    let stripped = without_start_slash(path);
    let prefix = route_of(stripped, false);
    assert(is_root(sub));
    lemma_base_strict(t, stripped, false);
    lemma_grafted_at(t, stripped, None, false, sub, prefix);
    lemma_base_names(t, stripped, None, false, sub.leaf.names, weight(sub));
    let b = base(t, stripped, false);
    let a = attached(b, names_in(stripped, None, false), sub);
    lemma_attached_at(b, names_in(stripped, None, false), sub, Seq::empty(), "HEAD"@);
    assert(a.leaf == attached_leaf(b, names_in(stripped, None, false), sub)) by {
        let u = Tree { leaf: attached_leaf(b, names_in(stripped, None, false), sub), ..b };
        let p = placed(names_in(stripped, None, false), sub);
        if b.indices.contains('/') {
            let at = b.indices.index_of('/');
            lemma_put_child_child(u, at, meeting(b.children[at], p), '/');
        } else {
            lemma_add_child_child(u, '/', p, '/');
        }
    }
    assert(prefix.is_prefix_of(prefix)) by {
        assert(prefix =~= prefix.subrange(0, prefix.len() as int));
    }
    assert(prefix.skip(prefix.len() as int) =~= Seq::<Symbol>::empty());
}

/// The node that a path leads to is strict if the tree is.
pub proof fn lemma_base_strict<V>(t: Tree<V>, path: Seq<char>, in_token: bool)
    requires
        t.strict(),
    ensures
        base(t, path, in_token).strict(),
    decreases path.len(), t,
{
    if path.len() == 0 {
    } else if path[0] == ':' && !in_token {
        lemma_segment(path);
        lemma_blank_wf::<V>(leading_name(path));
        lemma_base_strict(
            wildcard_of(t, leading_name(path)),
            path.skip(segment_len(path) as int),
            false,
        );
    } else {
        let skipped = escape_len(path, in_token);
        let token = static_token(path, in_token);
        lemma_static_token(path, in_token);
        if t.indices.contains(token[0]) {
            lemma_child_prefix(t, token);
            let child = t.children[t.indices.index_of(token[0])];
            let n = common_len(child.path, token);
            lemma_split_strict(child, n);
            lemma_base_strict(split(child, n), path.skip((skipped + n) as int), token[0] != '/');
        } else {
            lemma_blank_wf::<V>(token);
            lemma_base_strict(
                blank_tree::<V>(token),
                path.skip((skipped + token.len()) as int),
                token[0] != '/',
            );
        }
    }
}

/// Routes other than that of the path itself and those behind a slash below it are not touched by
/// attaching a tree.
pub proof fn law_extension_keeps_routes<V>(
    t: Tree<V>,
    path: Seq<char>,
    sub: Tree<V>,
    route: Seq<Symbol>,
)
    requires
        t.strict(),
        sub.strict(),
        sub.path == seq!['/'],
        extension_refused(t, path, sub) is None,
        route != route_of(without_start_slash(path), false),
        !under(path, Seq::empty()).is_prefix_of(route),
    ensures
        held_at(extended(t, path, sub), route) == held_at(t, route),
{
    let stripped = without_start_slash(path);
    let prefix = route_of(stripped, false);
    assert(is_root(sub));
    lemma_base_strict(t, stripped, false);
    lemma_grafted_at(t, stripped, None, false, sub, route);
    if prefix.is_prefix_of(route) {
        let tail = route.skip(prefix.len() as int);
        assert(route =~= prefix + tail);
        assert(tail.len() > 0) by {
            if tail.len() == 0 {
                assert(route =~= prefix);
            }
        }
        assert(tail[0] != Symbol::Literal('/')) by {
            if tail[0] == Symbol::Literal('/') {
                assert(seq![literal('/')] + Seq::<Symbol>::empty() =~= seq![literal('/')]);
                assert(seq![literal('/')].is_prefix_of(tail)) by {
                    assert(seq![literal('/')] =~= tail.subrange(0, 1));
                }
                lemma_prefix_split(prefix, seq![literal('/')], route);
            }
        }
        lemma_attached_at(
            base(t, stripped, false),
            names_in(stripped, None, false),
            sub,
            tail,
            Seq::empty(),
        );
    }
}

/// Attaching a tree that consumes a character keeps a tree strict.
pub proof fn law_grafted_strict<V>(
    t: Tree<V>,
    path: Seq<char>,
    names: Option<Seq<Seq<char>>>,
    in_token: bool,
    sub: Tree<V>,
)
    requires
        t.strict(),
        sub.strict(),
        is_root(sub),
        sub.path == seq!['/'],
    ensures
        grafted(t, path, names, in_token, sub).strict(),
    decreases path.len(), t,
{
    let g = grafted(t, path, names, in_token, sub);
    lemma_grafted_wf(t, path, names, in_token, sub);
    if path.len() == 0 {
        lemma_attached_strict(t, names, sub);
    } else if path[0] == ':' && !in_token {
        let name = leading_name(path);
        lemma_segment(path);
        lemma_blank_wf::<V>(name);
        law_grafted_strict(
            wildcard_of(t, name),
            path.skip(segment_len(path) as int),
            Some(listed(names).push(name)),
            false,
            sub,
        );
        assert(g.children == t.children);
    } else {
        let skipped = escape_len(path, in_token);
        let token = static_token(path, in_token);
        lemma_static_token(path, in_token);
        if t.indices.contains(token[0]) {
            lemma_child_prefix(t, token);
            let i = t.indices.index_of(token[0]);
            let child = t.children[i];
            let n = common_len(child.path, token);
            let rest = path.skip((skipped + n) as int);
            let below = grafted(split(child, n), rest, names, token[0] != '/', sub);
            lemma_split_strict(child, n);
            lemma_grafted_wf(split(child, n), rest, names, token[0] != '/', sub);
            law_grafted_strict(split(child, n), rest, names, token[0] != '/', sub);
            lemma_put_child_strict(t, i, below);
        } else {
            let rest = path.skip((skipped + token.len()) as int);
            let below = grafted(blank_tree(token), rest, names, token[0] != '/', sub);
            lemma_blank_wf::<V>(token);
            lemma_grafted_wf(blank_tree(token), rest, names, token[0] != '/', sub);
            law_grafted_strict(blank_tree(token), rest, names, token[0] != '/', sub);
            lemma_add_child_strict(t, token[0], below);
        }
    }
}

/// What `law_grafted_strict` states of the empty path.
proof fn lemma_attached_strict<V>(t: Tree<V>, names: Option<Seq<Seq<char>>>, sub: Tree<V>)
    requires
        t.strict(),
        sub.strict(),
        is_root(sub),
        sub.path == seq!['/'],
    ensures
        attached(t, names, sub).strict(),
{
    let p = placed(names, sub);
    let u = Tree { leaf: attached_leaf(t, names, sub), ..t };
    lemma_placed_at(names, sub, Seq::empty());
    lemma_placed(names, sub);
    lemma_merged_distinct(t.leaf.handlers, sub.leaf.handlers);
    assert(u.children == t.children);
    assert(u.shaped());
    assert(u.strict());
    if t.indices.contains('/') {
        let at = t.indices.index_of('/');
        let previous = t.children[at];
        assert(previous.path == seq!['/']) by {
            assert(previous.path.contains(previous.path[0]));
        }
        lemma_common_is(previous.path, p.path, 1);
        assert(meeting(previous, p) == merge(previous, p));
        lemma_merge(previous, p);
        lemma_merge_strict(previous, p);
        lemma_put_child_strict(u, at, meeting(previous, p));
    } else {
        lemma_add_child_strict(u, '/', p);
    }
}

/// Attaching a tree keeps the priority of every node the number of values registered in its sub
/// nodes.
pub proof fn law_extended_counts_values<V>(t: Tree<V>, path: Seq<char>, sub: Tree<V>)
    requires
        t.wf(),
        is_root(sub),
    ensures
        counts_values(extended(t, path, sub)),
{
    lemma_grafted_wf(t, without_start_slash(path), None, false, sub);
    law_priority_counts_values(extended(t, path, sub));
}

/// A lookup that no route at or below the path matches finds after attaching a tree what it found
/// before.
pub proof fn law_extension_keeps_lookups<V>(
    t: Tree<V>,
    path: Seq<char>,
    sub: Tree<V>,
    method: Seq<char>,
    looked_up: Seq<char>,
)
    requires
        t.strict(),
        sub.strict(),
        sub.path == seq!['/'],
        extension_refused(t, path, sub) is None,
        captures(route_of(without_start_slash(path), false), looked_up) is None,
        forall|route: Seq<Symbol>|
            under(path, Seq::empty()).is_prefix_of(route) ==> (#[trigger] captures(
                route,
                looked_up,
            )) is None,
    ensures
        match find(t, method, looked_up) {
            Some(h) => find(extended(t, path, sub), method, looked_up) matches Some(k) && h.route
                == k.route && h.leaf == k.leaf && h.value == k.value && h.params == k.params,
            None => find(extended(t, path, sub), method, looked_up) is None,
        },
{
    let g = extended(t, path, sub);
    assert(is_root(sub));
    law_grafted_strict(t, without_start_slash(path), None, false, sub);
    assert forall|route: Seq<Symbol>|
        #![trigger held_at(t, route)]
        #![trigger held_at(g, route)]
        captures(route, looked_up) is Some implies held_at(t, route) == held_at(g, route) by {
        law_extension_keeps_routes(t, path, sub, route);
    }
    law_lookup_by_table(t, g, method, looked_up);
}

/// Giving names keeps the nodes in the order of their priorities.
proof fn lemma_prefixed_by_priority<V>(t: Tree<V>, names: Seq<Seq<char>>)
    requires
        t.wf(),
        by_priority(t),
    ensures
        by_priority(prefixed(t, names)),
    decreases t,
{
    let s = prefixed(t, names);
    assert forall|i: int| 0 <= i < s.children.len() implies by_priority(#[trigger] s.children[i])
        && s.children[i].priority == t.children[i].priority by {
        lemma_prefixed_by_priority(t.children[i], names);
        lemma_prefixed_wf(t.children[i], names);
    }
    assert forall|i: int, j: int|
        #![trigger s.children[i], s.children[j]]
        0 <= i < j < s.children.len() implies s.children[i].priority >= s.children[j].priority by {
        assert(t.children[i].priority >= t.children[j].priority);
    }
    if let Some(w) = t.wildcard {
        lemma_prefixed_by_priority(*w, names);
    }
}

/// Attaching a tree below a path keeps the nodes in the order of their priorities.
pub proof fn law_extension_keeps_order<V>(
    t: Tree<V>,
    path: Seq<char>,
    names: Option<Seq<Seq<char>>>,
    in_token: bool,
    sub: Tree<V>,
)
    requires
        t.wf(),
        is_root(sub),
        by_priority(t),
        by_priority(sub),
    ensures
        by_priority(grafted(t, path, names, in_token, sub)),
    decreases path.len(), t,
{
    if path.len() == 0 {
        lemma_attached_by_priority(t, names, sub);
    } else if path[0] == ':' && !in_token {
        let name = leading_name(path);
        let node = wildcard_of(t, name);
        let rest = path.skip(segment_len(path) as int);
        let more = Some(listed(names).push(name));
        lemma_segment(path);
        lemma_blank_wf::<V>(name);
        law_extension_keeps_order(node, rest, more, false, sub);
        let g = grafted(t, path, names, in_token, sub);
        lemma_by_priority_fields(Tree { wildcard: g.wildcard, ..t }, g);
    } else {
        let skipped = escape_len(path, in_token);
        let token = static_token(path, in_token);
        lemma_static_token(path, in_token);
        if t.indices.contains(token[0]) {
            lemma_child_prefix(t, token);
            let i = t.indices.index_of(token[0]);
            let child = t.children[i];
            let n = common_len(child.path, token);
            let rest = path.skip((skipped + n) as int);
            assert(by_priority(child));
            lemma_split_by_priority(child, n);
            lemma_grafted_wf(split(child, n), rest, names, token[0] != '/', sub);
            law_extension_keeps_order(split(child, n), rest, names, token[0] != '/', sub);
            lemma_put_by_priority(
                t,
                i,
                grafted(split(child, n), rest, names, token[0] != '/', sub),
            );
        } else {
            let rest = path.skip((skipped + token.len()) as int);
            lemma_blank_wf::<V>(token);
            law_extension_keeps_order(blank_tree(token), rest, names, token[0] != '/', sub);
            lemma_add_by_priority(
                t,
                token[0],
                grafted(blank_tree(token), rest, names, token[0] != '/', sub),
            );
        }
    }
}

/// What `law_extension_keeps_order` states of the empty path.
proof fn lemma_attached_by_priority<V>(t: Tree<V>, names: Option<Seq<Seq<char>>>, sub: Tree<V>)
    requires
        t.wf(),
        is_root(sub),
        by_priority(t),
        by_priority(sub),
    ensures
        by_priority(attached(t, names, sub)),
{
    let p = placed(names, sub);
    let u = Tree { leaf: attached_leaf(t, names, sub), ..t };
    lemma_placed(names, sub);
    let bare = with_handlers(sub, Seq::empty());
    assert(bare.children == sub.children);
    assert(bare.shaped());
    lemma_by_priority_fields(sub, bare);
    if names is Some {
        lemma_prefixed_by_priority(bare, names->0);
    }
    lemma_by_priority_fields(t, u);
    if t.indices.contains('/') {
        let at = t.indices.index_of('/');
        let previous = t.children[at];
        let k = common_len(previous.path, p.path);
        assert(by_priority(previous));
        lemma_meeting(previous, p, '/');
        lemma_split_by_priority(previous, k);
        lemma_split_by_priority(p, k);
        lemma_merge(split(previous, k), split(p, k));
        lemma_merge_by_priority(split(previous, k), split(p, k));
        lemma_put_by_priority(u, at, meeting(previous, p));
    } else {
        lemma_add_by_priority(u, '/', p);
    }
}

/// What is preferred to a route that begins with static text begins with the same text.
proof fn lemma_prefers_static(text: Seq<char>, other: Seq<Symbol>, route: Seq<Symbol>)
    requires
        prefers(other, literals(text) + route),
    ensures
        ({
            let rest = other.skip(text.len() as int);
            &&& text.len() <= other.len()
            &&& other == literals(text) + rest
            &&& prefers(rest, route)
        }),
    decreases text.len(),
{
    let whole = literals(text) + route;
    if text.len() == 0 {
        assert(whole =~= route);
        assert(other.skip(0) =~= other);
        assert(literals(text) + other =~= other);
    } else {
        assert(whole[0] == Symbol::Literal(text[0]));
        assert(other[0] == whole[0]);
        assert(whole.skip(1) =~= literals(text.skip(1)) + route);
        lemma_prefers_static(text.skip(1), other.skip(1), route);
        let rest = other.skip(text.len() as int);
        assert(rest =~= other.skip(1).skip(text.len() - 1));
        assert(other =~= literals(text) + rest) by {
            assert forall|i: int| 0 <= i < other.len() implies other[i] == (literals(text)
                + rest)[i] by {
                if 0 < i {
                    assert(other[i] == other.skip(1)[i - 1]);
                }
            }
        }
    }
}

/// A static path and a slash, as routes.
proof fn lemma_under_static(path: Seq<char>, route: Seq<Symbol>)
    requires
        is_static(path),
    ensures
        route_of(without_start_slash(path), false) == literals(without_start_slash(path)),
        under(path, route) == literals(without_start_slash(path).push('/')) + route,
{
    let stripped = without_start_slash(path);
    assert forall|i: int| 0 <= i < stripped.len() implies path.contains(stripped[i]) by {
        if stripped != path {
            assert(stripped[i] == path[i + 1]);
        }
    }
    lemma_plain_route(stripped, false);
    assert(under(path, route) =~= literals(stripped.push('/')) + route);
}

/// Whether a path has no wildcards, catch-alls and escapes.
pub open spec fn is_static(path: Seq<char>) -> bool {
    !path.contains(':') && !path.contains('*') && !path.contains('\\')
}

/// Where nothing was registered behind a slash below a static path, a lookup behind the path finds
/// after attaching a tree the handler that the tree finds, with the same parameters and names.
pub proof fn law_mounted_lookup<V>(
    t: Tree<V>,
    path: Seq<char>,
    sub: Tree<V>,
    method: Seq<char>,
    rest: Seq<char>,
)
    requires
        t.strict(),
        sub.strict(),
        sub.path == seq!['/'],
        is_static(path),
        extension_refused(t, path, sub) is None,
        forall|route: Seq<Symbol>| held_at(t, #[trigger] under(path, route)).handlers.len() == 0,
        rest.len() > 0,
        has_value(find(sub, method, rest)),
    ensures
        ({
            let whole = without_start_slash(path).push('/') + rest;
            let found = find(extended(t, path, sub), method, whole);
            &&& found is Some
            &&& found->0.value == find(sub, method, rest)->0.value
            &&& found->0.params == find(sub, method, rest)->0.params
            &&& found->0.route == under(path, find(sub, method, rest)->0.route)
            &&& listed(find(sub, method, rest)->0.leaf.names).len() > 0 ==> found->0.names == find(
                sub,
                method,
                rest,
            )->0.names
        }),
{
    let g = extended(t, path, sub);
    let text = without_start_slash(path).push('/');
    let whole = text + rest;
    let h = find(sub, method, rest)->0;
    assert(is_root(sub));
    law_grafted_strict(t, without_start_slash(path), None, false, sub);
    law_found_is_registered(sub, method, rest);
    assert(held_at(sub, h.route) == h.leaf);
    assert(h.route.len() > 0);
    let route = under(path, h.route);
    lemma_under_static(path, h.route);
    lemma_captures_literals(text, h.route, whole);
    assert(text.is_prefix_of(whole)) by {
        assert(text =~= whole.subrange(0, text.len() as int));
    }
    assert(whole.skip(text.len() as int) =~= rest);
    law_extension_values(t, path, sub, h.route, method);
    lemma_entry_at(held_at(g, route).handlers, method);
    law_best_route_is_found(g, method, whole, route);
    law_found_is_registered(g, method, whole);
    let found = find(g, method, whole)->0;
    assert(held_at(g, found.route) == found.leaf);
    if found.route != route {
        lemma_prefers_static(text, found.route, h.route);
        let tail = found.route.skip(text.len() as int);
        lemma_under_static(path, tail);
        lemma_captures_literals(text, tail, whole);
        assert(tail.len() > 0);
        law_extension_values(t, path, sub, tail, method);
        assert(held_at(t, under(path, tail)).handlers.len() == 0);
        lemma_entry_at(held_at(t, under(path, tail)).handlers, method);
        lemma_entry_at(held_at(sub, tail).handlers, method);
        law_best_route_is_found(sub, method, rest, tail);
        lemma_prefers_one_way(tail, h.route);
    }
    law_extension_names(t, path, sub, h.route);
    lemma_static_names(path);
}

/// A static path names nothing.
proof fn lemma_static_names(path: Seq<char>)
    requires
        is_static(path),
    ensures
        names_in(without_start_slash(path), None, false) is None,
{
    let stripped = without_start_slash(path);
    assert forall|i: int| 0 <= i < stripped.len() implies path.contains(stripped[i]) by {
        if stripped != path {
            assert(stripped[i] == path[i + 1]);
        }
    }
    lemma_plain_route(stripped, false);
}

/// A lookup of a static path finds after attaching a tree there the handler of the tree's root, if
/// it has one for the method.
pub proof fn law_mounted_root_lookup<V>(
    t: Tree<V>,
    path: Seq<char>,
    sub: Tree<V>,
    method: Seq<char>,
)
    requires
        t.strict(),
        sub.strict(),
        sub.path == seq!['/'],
        is_static(path),
        extension_refused(t, path, sub) is None,
        has_value(find(sub, method, Seq::empty())),
    ensures
        find(extended(t, path, sub), method, without_start_slash(path)) matches Some(h) && h.value
            == find(sub, method, Seq::empty())->0.value,
{
    let g = extended(t, path, sub);
    let text = without_start_slash(path);
    let route = literals(text);
    assert(is_root(sub));
    law_grafted_strict(t, text, None, false, sub);
    lemma_under_static(path, Seq::empty());
    law_extension_root_values(t, path, sub, method);
    lemma_captures_literals(text, Seq::empty(), text);
    assert(literals(text) + Seq::<Symbol>::empty() =~= route);
    assert(text.is_prefix_of(text)) by {
        assert(text.subrange(0, text.len() as int) =~= text);
    }
    lemma_entry_at(held_at(g, route).handlers, method);
    law_best_route_is_found(g, method, text, route);
    law_found_is_registered(g, method, text);
    let found = find(g, method, text)->0;
    if found.route != route {
        lemma_static_is_first(found.route, text);
    }
}

/// A lookup of another path than a static path, and not behind a slash below it, finds after
/// attaching a tree there what it found before.
pub proof fn law_mount_keeps_other_paths<V>(
    t: Tree<V>,
    path: Seq<char>,
    sub: Tree<V>,
    method: Seq<char>,
    looked_up: Seq<char>,
)
    requires
        t.strict(),
        sub.strict(),
        sub.path == seq!['/'],
        is_static(path),
        extension_refused(t, path, sub) is None,
        looked_up != without_start_slash(path),
        !without_start_slash(path).push('/').is_prefix_of(looked_up),
    ensures
        match find(t, method, looked_up) {
            Some(h) => find(extended(t, path, sub), method, looked_up) matches Some(k) && h.route
                == k.route && h.leaf == k.leaf && h.value == k.value && h.params == k.params,
            None => find(extended(t, path, sub), method, looked_up) is None,
        },
{
    let text = without_start_slash(path);
    let slashed = text.push('/');
    lemma_under_static(path, Seq::empty());
    lemma_captures_literals(text, Seq::empty(), looked_up);
    assert(literals(text) + Seq::<Symbol>::empty() =~= literals(text));
    if captures(literals(text), looked_up) is Some {
        assert(looked_up.skip(text.len() as int).len() == 0);
        assert(looked_up =~= text);
    }
    assert(literals(slashed) + Seq::<Symbol>::empty() =~= literals(slashed));
    assert forall|route: Seq<Symbol>|
        under(path, Seq::empty()).is_prefix_of(route) implies (#[trigger] captures(
        route,
        looked_up,
    )) is None by {
        let tail = route.skip(slashed.len() as int);
        assert(route =~= literals(slashed) + tail);
        lemma_captures_literals(slashed, tail, looked_up);
    }
    law_extension_keeps_lookups(t, path, sub, method, looked_up);
}

/// A route is not preferred to one that it begins.
proof fn lemma_prefers_longer(a: Seq<Symbol>, b: Seq<Symbol>)
    ensures
        !prefers(a, a + b),
    decreases a.len(),
{
    if a.len() > 0 {
        assert((a + b).skip(1) =~= a.skip(1) + b);
        lemma_prefers_longer(a.skip(1), b);
    }
}

/// A handler of an attached tree is found by every path that its route under the path matches, with
/// the parameters that the route matches, unless a route that is preferred to it matches the path
/// too and has a handler for the method, be it one that was there or one of the attached tree.
pub proof fn law_extension_is_found<V>(
    t: Tree<V>,
    path: Seq<char>,
    sub: Tree<V>,
    route: Seq<Symbol>,
    method: Seq<char>,
    looked_up: Seq<char>,
)
    requires
        t.strict(),
        sub.strict(),
        sub.path == seq!['/'],
        extension_refused(t, path, sub) is None,
        route.len() > 0,
        value_of(held_at(sub, route).handlers, method) is Some,
        captures(under(path, route), looked_up) is Some,
        forall|other: Seq<Symbol>|
            #![trigger held_at(t, other)]
            prefers(other, under(path, route)) && captures(other, looked_up) is Some ==> value_of(
                held_at(t, other).handlers,
                method,
            ) is None,
        forall|other: Seq<Symbol>|
            #![trigger held_at(sub, other)]
            prefers(under(path, other), under(path, route)) && captures(
                under(path, other),
                looked_up,
            ) is Some ==> value_of(held_at(sub, other).handlers, method) is None,
    ensures
        find(extended(t, path, sub), method, looked_up) is Some,
        ({
            let h = find(extended(t, path, sub), method, looked_up)->0;
            let own = listed(held_at(sub, route).names);
            let names = listed(names_in(without_start_slash(path), None, false)) + own;
            &&& h.value == value_of(held_at(sub, route).handlers, method)
            &&& h.route == under(path, route)
            &&& Some(h.params) == captures(under(path, route), looked_up)
            &&& names_in(without_start_slash(path), None, false) is Some || own.len() > 0 ==> h.names
                == names
            &&& own.len() == variables(route) ==> h.params.len() == names.len()
        }),
{
    let g = extended(t, path, sub);
    let whole = under(path, route);
    let prefix = route_of(without_start_slash(path), false);
    let slashed = under(path, Seq::empty());
    assert(is_root(sub));
    law_grafted_strict(t, without_start_slash(path), None, false, sub);
    law_extension_values(t, path, sub, route, method);
    lemma_entry_at(held_at(g, whole).handlers, method);
    law_best_route_is_found(g, method, looked_up, whole);
    law_found_is_registered(g, method, looked_up);
    let h = find(g, method, looked_up)->0;
    assert(held_at(g, h.route) == h.leaf);
    if h.route != whole {
        if h.route == prefix {
            lemma_prefers_longer(prefix, seq![literal('/')] + route);
        } else if slashed.is_prefix_of(h.route) {
            let tail = h.route.skip(slashed.len() as int);
            assert(h.route =~= slashed + tail);
            assert(h.route =~= under(path, tail));
            if tail.len() == 0 {
                assert(h.route =~= slashed);
                law_extension_root_values(t, path, sub, method);
            } else {
                law_extension_values(t, path, sub, tail, method);
                assert(value_of(held_at(sub, tail).handlers, method) is None);
            }
            assert(value_of(held_at(t, h.route).handlers, method) is None);
        } else {
            law_extension_keeps_routes(t, path, sub, h.route);
            assert(value_of(held_at(t, h.route).handlers, method) is None);
        }
    }
    let stripped = without_start_slash(path);
    let own = held_at(sub, route);
    lemma_entry_at(own.handlers, method);
    law_extension_names(t, path, sub, route);
    lemma_names_some(stripped, None, false);
    lemma_names_and_variables(stripped, None, false);
    lemma_captures_and_variables(whole, looked_up);
    lemma_variables_joined(prefix, seq![literal('/')] + route);
    lemma_variables_joined(seq![literal('/')], route);
    assert(seq![literal('/')].skip(1) =~= Seq::<Symbol>::empty());
    assert(variables(seq![literal('/')]) == variables(seq![literal('/')].skip(1)));
    let names = listed(names_in(stripped, None, false)) + listed(own.names);
    if names_in(stripped, None, false) is Some || listed(own.names).len() > 0 {
        assert(listed(h.leaf.names) =~= names);
    }
}

/// The variables of a route are those of its parts.
proof fn lemma_variables_joined(a: Seq<Symbol>, b: Seq<Symbol>)
    ensures
        variables(a + b) == variables(a) + variables(b),
    decreases a.len(),
{
    if a.len() == 0 {
        assert(a + b =~= b);
    } else {
        assert((a + b).skip(1) =~= a.skip(1) + b);
        lemma_variables_joined(a.skip(1), b);
    }
}

/// A handler at the root of an attached tree is found by every path that the path of the tree
/// matches, with the parameters that it matches and under the names that it spells, unless a route
/// that is preferred to it matches too and had a handler for the method.
pub proof fn law_extension_root_is_found<V>(
    t: Tree<V>,
    path: Seq<char>,
    sub: Tree<V>,
    method: Seq<char>,
    looked_up: Seq<char>,
)
    requires
        t.strict(),
        sub.strict(),
        sub.path == seq!['/'],
        sub.leaf.names is None,
        extension_refused(t, path, sub) is None,
        value_of(sub.leaf.handlers, method) is Some,
        captures(route_of(without_start_slash(path), false), looked_up) is Some,
        forall|other: Seq<Symbol>|
            #![trigger held_at(t, other)]
            prefers(other, route_of(without_start_slash(path), false)) && captures(other, looked_up)
                is Some ==> value_of(held_at(t, other).handlers, method) is None,
    ensures
        find(extended(t, path, sub), method, looked_up) is Some,
        ({
            let h = find(extended(t, path, sub), method, looked_up)->0;
            let route = route_of(without_start_slash(path), false);
            let names = listed(names_in(without_start_slash(path), None, false));
            &&& h.value == value_of(sub.leaf.handlers, method)
            &&& h.route == route
            &&& Some(h.params) == captures(route, looked_up)
            &&& h.params.len() == names.len()
            &&& names.len() > 0 ==> h.names == names
        }),
{
    let g = extended(t, path, sub);
    let stripped = without_start_slash(path);
    let route = route_of(stripped, false);
    let slashed = under(path, Seq::empty());
    assert(is_root(sub));
    law_grafted_strict(t, stripped, None, false, sub);
    law_extension_root_values(t, path, sub, method);
    law_extension_root_names(t, path, sub);
    lemma_entry_at(held_at(g, route).handlers, method);
    law_best_route_is_found(g, method, looked_up, route);
    law_found_is_registered(g, method, looked_up);
    let h = find(g, method, looked_up)->0;
    assert(held_at(g, h.route) == h.leaf);
    if h.route != route {
        if slashed.is_prefix_of(h.route) {
            let tail = h.route.skip(slashed.len() as int);
            let rest = seq![literal('/')] + tail;
            assert(h.route =~= slashed + tail);
            assert(h.route =~= route + rest);
            lemma_prefers_shorter(route, rest);
        } else {
            law_extension_keeps_routes(t, path, sub, h.route);
            assert(value_of(held_at(t, h.route).handlers, method) is None);
        }
    }
    lemma_names_some(stripped, None, false);
    lemma_names_and_variables(stripped, None, false);
    lemma_captures_and_variables(route, looked_up);
}

/// A route is not preferred to one that begins it.
proof fn lemma_prefers_shorter(a: Seq<Symbol>, b: Seq<Symbol>)
    ensures
        !prefers(a + b, a),
    decreases a.len(),
{
    if a.len() > 0 {
        assert((a + b).skip(1) =~= a.skip(1) + b);
        lemma_prefers_shorter(a.skip(1), b);
    }
}

/// A tree can be attached below every static path, as long as the values can be counted.
pub proof fn law_static_mount_is_accepted<V>(t: Tree<V>, path: Seq<char>, sub: Tree<V>)
    requires
        t.wf(),
        is_static(path),
        t.priority + weight(sub) <= usize::MAX,
    ensures
        extension_refused(t, path, sub) is None,
{
    let stripped = without_start_slash(path);
    assert forall|i: int| 0 <= i < stripped.len() implies path.contains(stripped[i]) by {
        if stripped != path {
            assert(stripped[i] == path[i + 1]);
        }
    }
    lemma_static_graft(t, stripped, false, sub.leaf.names, weight(sub));
}

/// What `law_static_mount_is_accepted` states of a path that goes on from a node.
proof fn lemma_static_graft<V>(
    t: Tree<V>,
    path: Seq<char>,
    in_token: bool,
    sub_names: Option<Seq<Seq<char>>>,
    values: nat,
)
    requires
        t.wf(),
        is_static(path),
        t.priority + values <= usize::MAX,
    ensures
        graft_rejection(t, path, None, in_token, sub_names, values) is None,
    decreases path.len(), t,
{
    if path.len() > 0 {
        assert(path.contains(path[0]));
        let skipped = escape_len(path, in_token);
        let token = static_token(path, in_token);
        lemma_static_token(path, in_token);
        if t.indices.contains(token[0]) {
            lemma_child_prefix(t, token);
            let child = t.children[t.indices.index_of(token[0])];
            let n = common_len(child.path, token);
            lemma_static_rest(path, (skipped + n) as int);
            lemma_static_graft(
                split(child, n),
                path.skip((skipped + n) as int),
                token[0] != '/',
                sub_names,
                values,
            );
        } else {
            lemma_blank_wf::<V>(token);
            lemma_static_rest(path, (skipped + token.len()) as int);
            lemma_static_graft(
                blank_tree::<V>(token),
                path.skip((skipped + token.len()) as int),
                token[0] != '/',
                sub_names,
                values,
            );
        }
    }
}

/// The rest of a static path is static.
proof fn lemma_static_rest(path: Seq<char>, n: int)
    requires
        is_static(path),
        0 <= n <= path.len(),
    ensures
        is_static(path.skip(n)),
{
    assert forall|i: int| 0 <= i < path.skip(n).len() implies path.contains(path.skip(n)[i]) by {
        assert(path.skip(n)[i] == path[n + i]);
    }
}

} // verus!
