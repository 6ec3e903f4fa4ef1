//! What becomes of the marks of a route when its tree is attached below a path.

use vstd::prelude::*;

use crate::children::{child_at, lemma_add_child_child, lemma_put_child_child};
use crate::graft::{
    attached, attached_leaf, extended, extension_refused, extent, graft_rejection, grafted, is_root,
    joined_leaf, lemma_extent_meeting, lemma_meeting, lemma_merge, meeting, merge, merged_child,
    placed,
};
use crate::graft_laws::{
    base, law_extension_is_found, law_extension_values, law_grafted_strict, lemma_base_strict,
    lemma_grafted_at, lemma_placed_at, placed_leaf, under,
};
use crate::laws::lemma_split_strict;
use crate::lookup::{captures, law_found_is_registered, prefers};
use crate::method::{distinct, law_merged_value, value_of};
use crate::model::{
    blank_leaf, blank_tree, escape_len, find, is_taken, leading_name, lemma_static_token, listed,
    literal, literals, names_clash, split, static_token, weight, wildcard_of, Leaf, RouteError,
    Symbol, Tree,
};
use crate::routes::{
    end_of, held_at, lemma_cut_token, lemma_held_blank, lemma_held_split, lemma_held_static,
    lemma_literals, names_in, route_of,
};
use crate::shape::{lemma_blank_wf, lemma_child_prefix};
use crate::text::{
    common_len, lemma_common, lemma_common_is, lemma_segment, segment_len, without_start_slash,
};

verus! {

/// Whether a leaf has of two others what a mount leaves of them: the trailing slash of either, the
/// catch-all of either, and for each method that the second one has handlers for, what the second
/// one says of it, else what the first one says.
pub open spec fn marked_by<V>(leaf: Leaf<V>, first: Leaf<V>, second: Leaf<V>) -> bool {
    &&& leaf.add_slash == (first.add_slash || second.add_slash)
    &&& leaf.catch_all is Some == (first.catch_all is Some || second.catch_all is Some)
    &&& forall|method: Seq<char>| #[trigger]
        is_taken(leaf, method) == if value_of(second.handlers, method) is Some {
            is_taken(second, method)
        } else {
            is_taken(first, method)
        }
}

/// The leaf of a route in two trees made one.
proof fn lemma_joined_marks<V>(a: Leaf<V>, b: Leaf<V>)
    requires
        a.catch_all is Some == b.catch_all is Some,
        distinct(a.handlers),
        distinct(b.handlers),
    ensures
        marked_by(joined_leaf(a, b), a, b),
{
    let leaf = joined_leaf(a, b);
    assert forall|method: Seq<char>| #[trigger]
        is_taken(leaf, method) == if value_of(b.handlers, method) is Some {
            is_taken(b, method)
        } else {
            is_taken(a, method)
        } by {
        law_merged_value(a.handlers, b.handlers, method);
    }
}

/// A route of two trees made one has the marks of both.
pub proof fn law_merge_marks<V>(a: Tree<V>, b: Tree<V>, route: Seq<Symbol>)
    requires
        a.strict(),
        b.strict(),
    ensures
        marked_by(held_at(merge(a, b), route), held_at(a, route), held_at(b, route)),
    decreases extent(a) + extent(b),
{
    let m = merge(a, b);
    lemma_merge(a, b);
    if route.len() == 0 {
        lemma_joined_marks(a.leaf, b.leaf);
    } else {
        match route[0] {
            Symbol::Literal(c) => {
                lemma_held_static(a, route, c);
                lemma_held_static(b, route, c);
                lemma_held_static(m, route, c);
                assert(b.indices.take(b.children.len() as int) =~= b.indices);
                assert(child_at(m, c) == merged_child(a, b, b.children.len(), c));
                match (child_at(a, c), child_at(b, c)) {
                    (Some(x), Some(y)) => {
                        let i = a.indices.index_of(c);
                        let j = b.indices.index_of(c);
                        let k = common_len(x.path, y.path);
                        lemma_common(x.path, y.path);
                        lemma_meeting(x, y, c);
                        lemma_extent_meeting(a, b, i, j);
                        lemma_held_split(x, k, route);
                        lemma_held_split(y, k, route);
                        lemma_split_strict(x, k);
                        lemma_split_strict(y, k);
                        lemma_merge(split(x, k), split(y, k));
                        law_merge_marks(split(x, k), split(y, k), route.skip(k as int));
                    },
                    _ => {},
                }
            },
            Symbol::Wildcard => match (a.wildcard, b.wildcard) {
                (Some(x), Some(y)) => {
                    law_merge_marks(*x, *y, route.skip(1));
                    assert(*m.wildcard->0 == merge(*x, *y));
                },
                _ => {},
            },
            Symbol::CatchAll => match (a.catch_all, b.catch_all) {
                (Some(x), Some(y)) => {
                    lemma_joined_marks(x.leaf, y.leaf);
                },
                _ => {},
            },
        }
    }
}

/// Putting names in front of those of a leaf leaves its marks.
proof fn lemma_placed_marks<V>(first: Leaf<V>, leaf: Leaf<V>, names: Option<Seq<Seq<char>>>)
    ensures
        marked_by(placed_leaf(leaf, names), leaf, leaf),
        forall|whole: Leaf<V>|
            marked_by(whole, first, placed_leaf(leaf, names)) ==> #[trigger] marked_by(
                whole,
                first,
                leaf,
            ),
{
    assert forall|whole: Leaf<V>|
        marked_by(whole, first, placed_leaf(leaf, names)) implies #[trigger] marked_by(
        whole,
        first,
        leaf,
    ) by {
        let other = placed_leaf(leaf, names);
        assert forall|method: Seq<char>| #[trigger]
            is_taken(whole, method) == if value_of(leaf.handlers, method) is Some {
                is_taken(leaf, method)
            } else {
                is_taken(first, method)
            } by {
            assert(is_taken(other, method) == is_taken(leaf, method));
        }
    }
}

/// A route of a tree that is attached behind a slash.
proof fn lemma_attached_marks<V>(
    t: Tree<V>,
    names: Option<Seq<Seq<char>>>,
    sub: Tree<V>,
    route: Seq<Symbol>,
)
    requires
        t.strict(),
        sub.strict(),
        sub.path == seq!['/'],
        route.len() > 0,
    ensures
        marked_by(
            held_at(attached(t, names, sub), seq![literal('/')] + route),
            held_at(t, seq![literal('/')] + route),
            held_at(sub, route),
        ),
{
    let a = attached(t, names, sub);
    let p = placed(names, sub);
    let slash = seq![literal('/')];
    let long = slash + route;
    assert(is_root(sub));
    lemma_placed_at(names, sub, route);
    assert(literals(seq!['/']) =~= slash);
    assert(long[0] == literal('/'));
    assert(long.skip(1) =~= route);
    assert(slash.is_prefix_of(long)) by {
        assert(slash =~= long.subrange(0, 1));
    }
    lemma_held_static(a, long, '/');
    lemma_held_static(t, long, '/');
    lemma_placed_marks(held_at(t, long), held_at(sub, route), names);
    let u = Tree { leaf: attached_leaf(t, names, sub), ..t };
    if t.indices.contains('/') {
        let at = t.indices.index_of('/');
        let previous = t.children[at];
        assert(previous.strict());
        assert(previous.path == seq!['/']) by {
            assert(previous.path.contains(previous.path[0]));
        }
        lemma_common_is(previous.path, p.path, 1);
        assert(meeting(previous, p) == merge(previous, p));
        lemma_merge(previous, p);
        law_merge_marks(previous, p, route);
        lemma_put_child_child(u, at, meeting(previous, p), '/');
    } else {
        lemma_add_child_child(u, '/', p, '/');
        assert(child_at(t, '/') is None);
    }
}

/// A route below the root of an attached tree keeps its marks, whether or not the path that the
/// tree is attached to has wildcards. It has a trailing slash if it had one in the attached tree or
/// in the tree that it is attached to, so exactly as in the attached tree if nothing was registered
/// for it before. It is a catch-all if it was one. A `HEAD` handler of the attached tree that a
/// `GET` handler stands in for stays so, and one that was registered stays so.
pub proof fn law_extension_marks<V>(
    t: Tree<V>,
    path: Seq<char>,
    sub: Tree<V>,
    route: Seq<Symbol>,
    method: Seq<char>,
)
    requires
        t.strict(),
        sub.strict(),
        sub.path == seq!['/'],
        extension_refused(t, path, sub) is None,
        route.len() > 0,
    ensures
        ({
            let whole = route_of(without_start_slash(path), false) + (seq![Symbol::Literal('/')]
                + route);
            let leaf = held_at(extended(t, path, sub), whole);
            let own = held_at(sub, route);
            let before = held_at(t, whole);
            &&& leaf.add_slash == (own.add_slash || before.add_slash)
            &&& before == blank_leaf::<V>() ==> leaf.add_slash == own.add_slash
            &&& leaf.catch_all is Some == (own.catch_all is Some || before.catch_all is Some)
            &&& value_of(own.handlers, method) is Some && (method != "HEAD"@ || !own.implicit_head)
                ==> value_of(leaf.handlers, method) is Some && (method != "HEAD"@
                || !leaf.implicit_head)
            &&& value_of(own.handlers, "HEAD"@) is Some && own.implicit_head ==> leaf.implicit_head
            &&& value_of(own.handlers, "HEAD"@) is None && value_of(before.handlers, "HEAD"@)
                is Some ==> leaf.implicit_head == before.implicit_head
        }),
{
    let stripped = without_start_slash(path);
    let prefix = route_of(stripped, false);
    let whole = prefix + (seq![Symbol::Literal('/')] + route);
    assert(is_root(sub));
    lemma_base_strict(t, stripped, false);
    lemma_grafted_at(t, stripped, None, false, sub, whole);
    lemma_attached_marks(base(t, stripped, false), names_in(stripped, None, false), sub, route);
    assert(prefix.is_prefix_of(whole)) by {
        assert(prefix =~= whole.subrange(0, prefix.len() as int));
    }
    assert(whole.skip(prefix.len() as int) =~= seq![literal('/')] + route);
    law_extension_values(t, path, sub, route, "HEAD"@);
    assert(whole =~= under(path, route));
    let leaf = held_at(extended(t, path, sub), whole);
    assert(marked_by(leaf, held_at(t, whole), held_at(sub, route)));
    assert(is_taken(leaf, method) == if value_of(held_at(sub, route).handlers, method) is Some {
        is_taken(held_at(sub, route), method)
    } else {
        is_taken(held_at(t, whole), method)
    });
    assert(is_taken(leaf, "HEAD"@) == if value_of(held_at(sub, route).handlers, "HEAD"@) is Some {
        is_taken(held_at(sub, route), "HEAD"@)
    } else {
        is_taken(held_at(t, whole), "HEAD"@)
    });
}

/// The path that a tree is attached to keeps its trailing slash, or its lack of one, and what the
/// attached tree has for its root is as much registered there as it was.
pub proof fn law_extension_root_marks<V>(
    t: Tree<V>,
    path: Seq<char>,
    sub: Tree<V>,
)
    requires
        t.strict(),
        sub.strict(),
        sub.path == seq!['/'],
        extension_refused(t, path, sub) is None,
    ensures
        ({
            let prefix = route_of(without_start_slash(path), false);
            let leaf = held_at(extended(t, path, sub), prefix);
            let before = held_at(t, prefix);
            &&& leaf.add_slash == before.add_slash
            &&& leaf.catch_all == before.catch_all
            &&& leaf.implicit_head == if value_of(sub.leaf.handlers, "HEAD"@) is Some {
                sub.leaf.implicit_head
            } else {
                before.implicit_head
            }
        }),
{
    let stripped = without_start_slash(path);
    let prefix = route_of(stripped, false);
    assert(is_root(sub));
    lemma_base_strict(t, stripped, false);
    lemma_grafted_at(t, stripped, None, false, sub, prefix);
    let b = base(t, stripped, false);
    let a = attached(b, names_in(stripped, None, false), sub);
    assert(a.leaf == attached_leaf(b, names_in(stripped, None, false), sub)) by {
        let u = Tree { leaf: attached_leaf(b, names_in(stripped, None, false), sub), ..b };
        let p = placed(names_in(stripped, None, false), sub);
        if b.indices.contains('/') {
            let at = b.indices.index_of('/');
            lemma_put_child_child(u, at, meeting(b.children[at], p), '/');
        } else {
            lemma_add_child_child(u, '/', p, '/');
        }
    }
    assert(prefix.is_prefix_of(prefix)) by {
        assert(prefix =~= prefix.subrange(0, prefix.len() as int));
    }
    assert(prefix.skip(prefix.len() as int) =~= Seq::<Symbol>::empty());
}

/// What `law_mount_refusal_reason` states of a path that goes on from a node.
#[verifier::spinoff_prover]
#[verifier::rlimit(60)]
proof fn lemma_graft_reason<V>(
    t: Tree<V>,
    path: Seq<char>,
    names: Option<Seq<Seq<char>>>,
    in_token: bool,
    values: nat,
)
    requires
        t.wf(),
        t.priority + values <= usize::MAX,
    ensures
        graft_rejection(t, path, names, in_token, None, values) == if end_of(path, in_token)
            is Some {
            Some(RouteError::CatchAllGroup)
        } else {
            names_clash(
                held_at(t, route_of(path, in_token)).names,
                names_in(path, names, in_token),
            )
        },
    decreases path.len(), t,
{
    let route = route_of(path, in_token);
    if path.len() == 0 {
    } else if path[0] == '*' && !in_token {
    } else if path[0] == ':' && !in_token {
        let name = leading_name(path);
        let rest = path.skip(segment_len(path) as int);
        let node = wildcard_of(t, name);
        lemma_segment(path);
        lemma_blank_wf::<V>(name);
        assert(route[0] == Symbol::Wildcard);
        assert(route.skip(1) =~= route_of(rest, false));
        lemma_held_blank::<V>(name, route.skip(1));
        assert(held_at(t, route) == held_at(node, route.skip(1)));
        lemma_graft_reason(node, rest, Some(listed(names).push(name)), false, values);
    } else {
        let skipped = escape_len(path, in_token);
        let token = static_token(path, in_token);
        let c = token[0];
        lemma_static_token(path, in_token);
        lemma_cut_token(path, in_token, token.len());
        assert(token.take(token.len() as int) =~= token);
        assert(route[0] == literals(token)[0]);
        lemma_held_static(t, route, c);
        if t.indices.contains(c) {
            lemma_child_prefix(t, token);
            let child = t.children[t.indices.index_of(c)];
            let n = common_len(child.path, token);
            lemma_common(child.path, token);
            let cut = split(child, n);
            let rest = path.skip((skipped + n) as int);
            lemma_cut_token(path, in_token, n);
            if n > 0 {
                lemma_held_split(child, n, route);
            }
            assert(cut.path == token.take(n as int));
            lemma_literals(cut.path, Seq::empty(), route_of(rest, c != '/'));
            assert(held_at(t, route) == held_at(cut, route_of(rest, c != '/')));
            assert(names_in(path, names, in_token) == names_in(rest, names, c != '/'));
            lemma_graft_reason(cut, rest, names, c != '/', values);
        } else {
            let rest = path.skip((skipped + token.len()) as int);
            let fresh = blank_tree::<V>(token);
            lemma_blank_wf::<V>(token);
            lemma_held_blank::<V>(token, route_of(rest, c != '/'));
            lemma_graft_reason(fresh, rest, names, c != '/', values);
        }
    }
}

/// Why a tree cannot be attached to a path: the path has a catch-all, or it ends where routes are
/// registered with another number of wildcards or with other names, or there are too many values to
/// count. There is no other reason.
pub proof fn law_mount_refusal_reason<V>(t: Tree<V>, path: Seq<char>, sub: Tree<V>)
    requires
        t.wf(),
        sub.leaf.names is None,
        path.len() == 0 || path[0] != '/',
    ensures
        ({
            let had = held_at(t, route_of(path, false)).names;
            let own = names_in(path, None, false);
            extension_refused(t, seq!['/'] + path, sub) == if t.priority + sub.priority
                + sub.leaf.handlers.len() > usize::MAX {
                Some(RouteError::TooManyRoutes)
            } else if end_of(path, false) is Some {
                Some(RouteError::CatchAllGroup)
            } else if had is Some && own is Some && had->0.len() != own->0.len() {
                Some(RouteError::WildcardCount)
            } else if had is Some && own is Some && had != own {
                Some(RouteError::WildcardNames)
            } else {
                None
            }
        }),
{
    assert((seq!['/'] + path).skip(1) =~= path);
    if t.priority + weight(sub) <= usize::MAX {
        lemma_graft_reason(t, path, None, false, weight(sub));
    }
}

/// A leading slash makes no difference to where a tree is attached.
pub proof fn law_mount_leading_slash<V>(t: Tree<V>, path: Seq<char>, sub: Tree<V>)
    requires
        path.len() == 0 || path[0] != '/',
    ensures
        extended(t, seq!['/'] + path, sub) == extended(t, path, sub),
        extended(t, path, sub) == grafted(t, path, None, false, sub),
        extension_refused(t, seq!['/'] + path, sub) == extension_refused(t, path, sub),
{
    assert((seq!['/'] + path).skip(1) =~= path);
}

/// A request that finds a route of an attached tree finds it with the trailing slash that it has in
/// that tree, so it is answered in the same form of its path as there. A route that was there before
/// with a trailing slash keeps it.
pub proof fn law_mounted_route_keeps_its_form<V>(
    t: Tree<V>,
    path: Seq<char>,
    sub: Tree<V>,
    route: Seq<Symbol>,
    method: Seq<char>,
    looked_up: Seq<char>,
)
    requires
        t.strict(),
        sub.strict(),
        sub.path == seq!['/'],
        extension_refused(t, path, sub) is None,
        route.len() > 0,
        value_of(held_at(sub, route).handlers, method) is Some,
        captures(under(path, route), looked_up) is Some,
        forall|other: Seq<Symbol>|
            #![trigger held_at(t, other)]
            prefers(other, under(path, route)) && captures(other, looked_up) is Some ==> value_of(
                held_at(t, other).handlers,
                method,
            ) is None,
        forall|other: Seq<Symbol>|
            #![trigger held_at(sub, other)]
            prefers(under(path, other), under(path, route)) && captures(
                under(path, other),
                looked_up,
            ) is Some ==> value_of(held_at(sub, other).handlers, method) is None,
    ensures
        find(extended(t, path, sub), method, looked_up) matches Some(h) && h.value == value_of(
            held_at(sub, route).handlers,
            method,
        ) && h.leaf.add_slash == (held_at(sub, route).add_slash || held_at(
            t,
            under(path, route),
        ).add_slash) && h.leaf.catch_all is Some == (held_at(sub, route).catch_all is Some
            || held_at(t, under(path, route)).catch_all is Some),
{
    let g = extended(t, path, sub);
    law_extension_is_found(t, path, sub, route, method, looked_up);
    law_extension_marks(t, path, sub, route, method);
    law_grafted_strict(t, without_start_slash(path), None, false, sub);
    law_found_is_registered(g, method, looked_up);
    assert(under(path, route) =~= route_of(without_start_slash(path), false) + (seq![
        Symbol::Literal('/'),
    ] + route));
}

} // verus!
