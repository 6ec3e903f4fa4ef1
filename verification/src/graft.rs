//! How a tree of routes is attached below a path of another tree.

use vstd::prelude::*;

use crate::children::{child_at, lemma_add_child_child, lemma_index_of, lemma_put_child_child};
use crate::method::{lemma_merged_distinct, merged, value_of};
use crate::model::{
    add_child, blank_tree, escape_len, fragment_fits, leading_name, lemma_static_token, listed,
    names_clash, put_child, put_wildcard, recounted, split, static_token, total, weight,
    wildcard_of, Leaf, RouteError, Tree,
};
use crate::shape::{
    lemma_add_child, lemma_blank_wf, lemma_child_prefix, lemma_put_child, lemma_put_wildcard,
    lemma_split,
};
use crate::text::{common_len, lemma_common, lemma_segment, segment_len, without_start_slash};

verus! {

/// A well-formed tree that can stand at the root or behind a slash.
pub open spec fn is_root<V>(t: Tree<V>) -> bool {
    t.wf() && fragment_fits('/', t.path)
}

/// The tree with those handlers at its root.
pub open spec fn with_handlers<V>(t: Tree<V>, handlers: Seq<(Seq<char>, V)>) -> Tree<V> {
    Tree { leaf: Leaf { handlers, ..t.leaf }, ..t }
}

/// The leaf with names in front of its own, if it has handlers.
pub open spec fn prefixed_leaf<V>(leaf: Leaf<V>, names: Seq<Seq<char>>) -> Leaf<V> {
    if leaf.handlers.len() > 0 {
        Leaf { names: Some(names + listed(leaf.names)), ..leaf }
    } else {
        leaf
    }
}

/// The tree with names in front of those of every node with handlers.
pub open spec fn prefixed<V>(t: Tree<V>, names: Seq<Seq<char>>) -> Tree<V>
    decreases t,
{
    Tree {
        leaf: prefixed_leaf(t.leaf, names),
        children: Seq::new(
            t.children.len(),
            |i: int|
                if 0 <= i < t.children.len() {
                    prefixed(t.children[i], names)
                } else {
                    arbitrary()
                },
        ),
        wildcard: match t.wildcard {
            Some(w) => Some(Box::new(prefixed(*w, names))),
            None => None,
        },
        catch_all: match t.catch_all {
            Some(c) => Some(Box::new(Tree { leaf: prefixed_leaf(c.leaf, names), ..*c })),
            None => None,
        },
        ..t
    }
}

/// How far the first `n` static children of a tree reach.
pub open spec fn extent_in<V>(t: Tree<V>, n: nat) -> nat
    decreases t, n,
{
    if 0 < n <= t.children.len() {
        extent_in(t, (n - 1) as nat) + 1 + t.children[n - 1].path.len() + extent(t.children[n - 1])
    } else {
        0
    }
}

/// How far a tree reaches: its nodes and the characters of their paths, but for its root.
pub open spec fn extent<V>(t: Tree<V>) -> nat
    decreases t, t.children.len() + 1,
{
    extent_in(t, t.children.len()) + (match t.wildcard {
        Some(w) => 1 + extent(*w),
        None => 0,
    })
}

/// How far a node reaches that may be there.
pub open spec fn extent_of<V>(node: Option<Box<Tree<V>>>) -> nat {
    match node {
        Some(t) => 1 + extent(*t),
        None => 0,
    }
}

/// A child does not reach as far as its parent.
pub proof fn lemma_extent_child<V>(t: Tree<V>, i: int)
    requires
        0 <= i < t.children.len(),
    ensures
        1 + t.children[i].path.len() + extent(t.children[i]) <= extent(t),
{
    lemma_extent_in(t, i, t.children.len());
}

proof fn lemma_extent_in<V>(t: Tree<V>, i: int, n: nat)
    requires
        0 <= i < n <= t.children.len(),
    ensures
        1 + t.children[i].path.len() + extent(t.children[i]) <= extent_in(t, n),
    decreases n,
{
    if i < n - 1 {
        lemma_extent_in(t, i, (n - 1) as nat);
    }
}

/// A node that was cut reaches as far as its path did behind the cut.
pub proof fn lemma_extent_split<V>(t: Tree<V>, n: nat)
    ensures
        extent(split(t, n)) == if n < t.path.len() {
            1 + (t.path.len() - n) + extent(t)
        } else {
            extent(t) as int
        },
{
    if n < t.path.len() {
        let lower = Tree { path: t.path.skip(n as int), ..t };
        let cut = split(t, n);
        lemma_extent_all(t, lower);
        assert(cut.children[0] == lower);
        assert(extent_in(cut, 0) == 0);
        assert(extent_in(cut, 1) == extent_in(cut, 0) + 1 + lower.path.len() + extent(lower));
    }
}

/// What stands below the same root reaches equally far.
proof fn lemma_extent_all<V>(t: Tree<V>, u: Tree<V>)
    requires
        t.children == u.children,
        t.wildcard == u.wildcard,
    ensures
        extent(t) == extent(u),
{
    lemma_extent_parts(t, u, t.children.len());
}

proof fn lemma_extent_parts<V>(t: Tree<V>, u: Tree<V>, n: nat)
    requires
        t.children == u.children,
        n <= t.children.len(),
    ensures
        extent_in(t, n) == extent_in(u, n),
    decreases n,
{
    if n > 0 {
        lemma_extent_parts(t, u, (n - 1) as nat);
    }
}

/// Two children of the same character, cut where their paths part, reach less far than their
/// parents.
pub proof fn lemma_extent_meeting<V>(a: Tree<V>, b: Tree<V>, i: int, j: int)
    requires
        a.shaped(),
        b.shaped(),
        0 <= i < a.children.len(),
        0 <= j < b.children.len(),
        a.indices[i] == b.indices[j],
    ensures
        ({
            let x = a.children[i];
            let y = b.children[j];
            let k = common_len(x.path, y.path);
            extent(split(x, k)) + extent(split(y, k)) < extent(a) + extent(b)
        }),
{
    let x = a.children[i];
    let y = b.children[j];
    let k = common_len(x.path, y.path);
    lemma_common(x.path, y.path);
    lemma_extent_child(a, i);
    lemma_extent_child(b, j);
    lemma_extent_split(x, k);
    lemma_extent_split(y, k);
}

/// The leaf that two leaves of the same route make. The handlers of the second go before those of
/// the first.
pub open spec fn joined_leaf<V>(a: Leaf<V>, b: Leaf<V>) -> Leaf<V> {
    Leaf {
        handlers: merged(a.handlers, b.handlers),
        names: if b.names is Some {
            b.names
        } else {
            a.names
        },
        add_slash: a.add_slash || b.add_slash,
        implicit_head: if value_of(b.handlers, "HEAD"@) is Some {
            b.implicit_head
        } else {
            a.implicit_head
        },
        catch_all: b.catch_all,
    }
}

/// The catch-all that two catch-alls of the same route make.
pub open spec fn joined_end<V>(
    a: Option<Box<Tree<V>>>,
    b: Option<Box<Tree<V>>>,
) -> Option<Box<Tree<V>>> {
    match (a, b) {
        (Some(x), Some(y)) => Some(Box::new(Tree { leaf: joined_leaf(x.leaf, y.leaf), ..*y })),
        (None, y) => y,
        (x, None) => x,
    }
}

/// The first tree with the first `n` static children of the second one.
pub open spec fn merge_children<V>(a: Tree<V>, b: Tree<V>, n: nat) -> Tree<V>
    decreases extent(a) + extent(b), n,
    when a.wf() && b.wf() && n <= b.children.len()
{
    if n == 0 {
        a
    } else {
        let m = merge_children(a, b, (n - 1) as nat);
        let c = b.indices[n - 1];
        let y = b.children[n - 1];
        if a.indices.contains(c) {
            let x = a.children[a.indices.index_of(c)];
            let k = common_len(x.path, y.path);
            proof {
                lemma_extent_meeting(a, b, a.indices.index_of(c), n - 1);
            }
            put_child(m, m.indices.index_of(c), merge(split(x, k), split(y, k)))
        } else {
            add_child(m, c, y)
        }
    }
}

/// Two trees made one. Where both have handlers for a route and a method, that of the second one
/// is taken.
pub open spec fn merge<V>(a: Tree<V>, b: Tree<V>) -> Tree<V>
    decreases extent(a) + extent(b), b.children.len() + 1,
    when a.wf() && b.wf()
{
    let m = merge_children(a, b, b.children.len());
    recounted(
        Tree {
            leaf: joined_leaf(a.leaf, b.leaf),
            wildcard: match (a.wildcard, b.wildcard) {
                (Some(x), Some(y)) => Some(Box::new(merge(*x, *y))),
                (None, y) => y,
                (x, None) => x,
            },
            catch_all: joined_end(a.catch_all, b.catch_all),
            ..m
        },
    )
}

/// Two children of the same character made one: both are cut where their paths part.
pub open spec fn meeting<V>(x: Tree<V>, y: Tree<V>) -> Tree<V> {
    let k = common_len(x.path, y.path);
    merge(split(x, k), split(y, k))
}

/// The tree as it is attached: without the handlers of its root, and with the names of the
/// wildcards on the way in front of those of its routes.
pub open spec fn placed<V>(names: Option<Seq<Seq<char>>>, sub: Tree<V>) -> Tree<V> {
    let bare = with_handlers(sub, Seq::empty());
    match names {
        Some(list) => prefixed(bare, list),
        None => bare,
    }
}

/// The leaf of a node that a tree is attached to.
pub open spec fn attached_leaf<V>(
    t: Tree<V>,
    names: Option<Seq<Seq<char>>>,
    sub: Tree<V>,
) -> Leaf<V> {
    Leaf {
        handlers: merged(t.leaf.handlers, sub.leaf.handlers),
        names: if t.leaf.names is None && sub.leaf.names is None {
            names
        } else {
            t.leaf.names
        },
        implicit_head: if value_of(sub.leaf.handlers, "HEAD"@) is Some {
            sub.leaf.implicit_head
        } else {
            t.leaf.implicit_head
        },
        ..t.leaf
    }
}

/// The tree with another tree attached behind a slash, made one with what is there. The handlers of
/// the other tree's root become handlers of this tree's root, as if they had been registered there.
pub open spec fn attached<V>(t: Tree<V>, names: Option<Seq<Seq<char>>>, sub: Tree<V>) -> Tree<V> {
    let u = Tree { leaf: attached_leaf(t, names, sub), ..t };
    if t.indices.contains('/') {
        let at = t.indices.index_of('/');
        put_child(u, at, meeting(t.children[at], placed(names, sub)))
    } else {
        add_child(u, '/', placed(names, sub))
    }
}

/// Why a tree cannot be attached to a node.
pub open spec fn attach_rejection<V>(
    t: Tree<V>,
    names: Option<Seq<Seq<char>>>,
    sub_names: Option<Seq<Seq<char>>>,
) -> Option<RouteError> {
    match names_clash(t.leaf.names, names) {
        Some(e) => Some(e),
        None => if t.indices.contains('/') {
            None
        } else {
            names_clash(sub_names, names)
        },
    }
}

/// The tree after another one was attached below a path.
pub open spec fn grafted<V>(
    t: Tree<V>,
    path: Seq<char>,
    names: Option<Seq<Seq<char>>>,
    in_token: bool,
    sub: Tree<V>,
) -> Tree<V>
    decreases path.len(), t,
    when t.wf()
{
    if path.len() == 0 {
        attached(t, names, sub)
    } else if path[0] == ':' && !in_token {
        let name = leading_name(path);
        let rest = path.skip(segment_len(path) as int);
        proof {
            lemma_segment(path);
        }
        let below = grafted(wildcard_of(t, name), rest, Some(listed(names).push(name)), false, sub);
        put_wildcard(t, below)
    } else {
        let skipped = escape_len(path, in_token);
        let token = static_token(path, in_token);
        proof {
            lemma_static_token(path, in_token);
        }
        if t.indices.contains(token[0]) {
            let i = t.indices.index_of(token[0]);
            let child = t.children[i];
            let n = common_len(child.path, token);
            proof {
                lemma_common(child.path, token);
            }
            let rest = path.skip((skipped + n) as int);
            put_child(t, i, grafted(split(child, n), rest, names, token[0] != '/', sub))
        } else {
            let rest = path.skip((skipped + token.len()) as int);
            add_child(
                t,
                token[0],
                grafted(blank_tree(token), rest, names, token[0] != '/', sub),
            )
        }
    }
}

/// Why a tree with so many values cannot be attached below a path.
pub open spec fn graft_rejection<V>(
    t: Tree<V>,
    path: Seq<char>,
    names: Option<Seq<Seq<char>>>,
    in_token: bool,
    sub_names: Option<Seq<Seq<char>>>,
    values: nat,
) -> Option<RouteError>
    decreases path.len(), t,
    when t.wf()
{
    if t.priority + values > usize::MAX {
        Some(RouteError::TooManyRoutes)
    } else if path.len() == 0 {
        attach_rejection(t, names, sub_names)
    } else if path[0] == '*' && !in_token {
        Some(RouteError::CatchAllGroup)
    } else if path[0] == ':' && !in_token {
        let name = leading_name(path);
        let rest = path.skip(segment_len(path) as int);
        proof {
            lemma_segment(path);
        }
        graft_rejection(
            wildcard_of(t, name),
            rest,
            Some(listed(names).push(name)),
            false,
            sub_names,
            values,
        )
    } else {
        let skipped = escape_len(path, in_token);
        let token = static_token(path, in_token);
        proof {
            lemma_static_token(path, in_token);
        }
        if t.indices.contains(token[0]) {
            let child = t.children[t.indices.index_of(token[0])];
            let n = common_len(child.path, token);
            proof {
                lemma_common(child.path, token);
            }
            let rest = path.skip((skipped + n) as int);
            graft_rejection(split(child, n), rest, names, token[0] != '/', sub_names, values)
        } else {
            let rest = path.skip((skipped + token.len()) as int);
            graft_rejection(
                blank_tree::<V>(token),
                rest,
                names,
                token[0] != '/',
                sub_names,
                values,
            )
        }
    }
}

/// The tree after another one was attached below a path from the root.
pub open spec fn extended<V>(t: Tree<V>, path: Seq<char>, sub: Tree<V>) -> Tree<V> {
    grafted(t, without_start_slash(path), None, false, sub)
}

/// Why a tree cannot be attached below a path from the root.
pub open spec fn extension_refused<V>(t: Tree<V>, path: Seq<char>, sub: Tree<V>) -> Option<
    RouteError,
> {
    graft_rejection(t, without_start_slash(path), None, false, sub.leaf.names, weight(sub))
}

/// Nodes of equal weights have equal totals.
proof fn lemma_total_same<V>(s: Seq<Tree<V>>, t: Seq<Tree<V>>)
    requires
        s.len() == t.len(),
        forall|i: int| 0 <= i < s.len() ==> weight(#[trigger] s[i]) == weight(t[i]),
    ensures
        total(s) == total(t),
    decreases s.len(),
{
    if s.len() > 0 {
        assert forall|i: int| 0 <= i < s.drop_last().len() implies weight(
            #[trigger] s.drop_last()[i],
        ) == weight(t.drop_last()[i]) by {
            assert(s.drop_last()[i] == s[i]);
        }
        assert(weight(s[s.len() - 1]) == weight(t[s.len() - 1]));
        lemma_total_same(s.drop_last(), t.drop_last());
    }
}

/// Giving names keeps a tree well-formed, and the number of its values.
pub proof fn lemma_prefixed_wf<V>(t: Tree<V>, names: Seq<Seq<char>>)
    requires
        t.wf(),
    ensures
        prefixed(t, names).wf(),
        prefixed(t, names).path == t.path,
        prefixed(t, names).priority == t.priority,
        weight(prefixed(t, names)) == weight(t),
    decreases t,
{
    let s = prefixed(t, names);
    assert forall|i: int| 0 <= i < s.children.len() implies fragment_fits(
        s.indices[i],
        (#[trigger] s.children[i]).path,
    ) && s.children[i].wf() && weight(s.children[i]) == weight(t.children[i]) by {
        lemma_prefixed_wf(t.children[i], names);
    }
    lemma_total_same(s.children, t.children);
    if let Some(w) = t.wildcard {
        lemma_prefixed_wf(*w, names);
    }
    assert(s.shaped());
}

/// What stands for a character in the first tree with the first `n` static children of the second.
pub open spec fn merged_child<V>(a: Tree<V>, b: Tree<V>, n: nat, c: char) -> Option<Tree<V>> {
    if b.indices.take(n as int).contains(c) {
        match child_at(a, c) {
            Some(x) => Some(meeting(x, child_at(b, c)->0)),
            None => child_at(b, c),
        }
    } else {
        child_at(a, c)
    }
}

/// Two fitting children of the same character can be made one.
pub proof fn lemma_meeting<V>(x: Tree<V>, y: Tree<V>, c: char)
    requires
        x.wf(),
        y.wf(),
        fragment_fits(c, x.path),
        fragment_fits(c, y.path),
    ensures
        ({
            let k = common_len(x.path, y.path);
            &&& split(x, k).wf()
            &&& split(y, k).wf()
            &&& weight(split(x, k)) == weight(x)
            &&& weight(split(y, k)) == weight(y)
            &&& x.priority <= split(x, k).priority
            &&& split(x, k).path == x.path.take(k as int)
            &&& split(y, k).path == split(x, k).path
            &&& fragment_fits(c, split(x, k).path)
        }),
{
    let k = common_len(x.path, y.path);
    lemma_common(x.path, y.path);
    lemma_split(x, c, k);
    lemma_split(y, c, k);
}

/// The first tree with static children of the second one is well-formed, and has the children of
/// both.
#[verifier::spinoff_prover]
#[verifier::rlimit(40)]
pub proof fn lemma_merge_children<V>(a: Tree<V>, b: Tree<V>, n: nat)
    requires
        a.wf(),
        b.wf(),
        n <= b.children.len(),
    ensures
        ({
            let m = merge_children(a, b, n);
            &&& m.wf()
            &&& m.path == a.path
            &&& m.leaf == a.leaf
            &&& m.wildcard == a.wildcard
            &&& m.catch_all == a.catch_all
            &&& a.priority <= m.priority <= a.priority + total(b.children.take(n as int))
        }),
        forall|c: char|
            #![trigger child_at(merge_children(a, b, n), c)]
            child_at(merge_children(a, b, n), c) == merged_child(a, b, n, c),
    decreases extent(a) + extent(b), n,
{
    let m = merge_children(a, b, n);
    if n > 0 {
        let part = merge_children(a, b, (n - 1) as nat);
        lemma_merge_children(a, b, (n - 1) as nat);
        let c = b.indices[n - 1];
        let y = b.children[n - 1];
        let had = b.indices.take(n - 1);
        let have = b.indices.take(n as int);
        assert(have =~= had.push(c));
        assert(!had.contains(c)) by {
            if had.contains(c) {
                let k = had.index_of(c);
                assert(b.indices[k] == c);
            }
        }
        assert(b.children.take(n as int).drop_last() =~= b.children.take(n - 1));
        assert(b.children.take(n as int).last() == y);
        lemma_index_of(b.indices, n - 1);
        assert(child_at(b, c) == Some(y));
        assert(child_at(part, c) == child_at(a, c));
        assert forall|d: char| have.contains(d) == (had.contains(d) || d == c) by {
            if had.contains(d) {
                assert(have[had.index_of(d)] == d);
            }
            if d == c {
                assert(have[n - 1] == d);
            }
            if have.contains(d) && d != c {
                let k = have.index_of(d);
                assert(had[k] == d);
            }
        }
        if a.indices.contains(c) {
            let x = a.children[a.indices.index_of(c)];
            let k = common_len(x.path, y.path);
            let i = part.indices.index_of(c);
            assert(child_at(a, c) == Some(x));
            assert(part.indices.contains(c));
            assert(part.children[i] == x);
            lemma_meeting(x, y, c);
            lemma_extent_meeting(a, b, a.indices.index_of(c), n - 1);
            lemma_merge(split(x, k), split(y, k));
            lemma_put_child(part, i, meeting(x, y));
            assert(m == put_child(part, i, meeting(x, y)));
            lemma_put_child_child(part, i, meeting(x, y), c);
            assert forall|d: char|
                #![trigger child_at(m, d)]
                child_at(m, d) == merged_child(a, b, n, d) by {
                lemma_put_child_child(part, i, meeting(x, y), d);
                assert(child_at(part, d) == merged_child(a, b, (n - 1) as nat, d));
            }
        } else {
            assert(child_at(a, c) is None);
            assert(!part.indices.contains(c));
            lemma_add_child(part, c, y);
            lemma_add_child_child(part, c, y, c);
            assert forall|d: char|
                #![trigger child_at(m, d)]
                child_at(m, d) == merged_child(a, b, n, d) by {
                lemma_add_child_child(part, c, y, d);
                assert(child_at(part, d) == merged_child(a, b, (n - 1) as nat, d));
            }
        }
    } else {
        assert forall|d: char|
            #![trigger child_at(m, d)]
            child_at(m, d) == merged_child(a, b, n, d) by {
            assert(!b.indices.take(0).contains(d));
        }
    }
}

/// Two trees made one are well-formed. No value of the first is lost, and none is counted that
/// neither has.
pub proof fn lemma_merge<V>(a: Tree<V>, b: Tree<V>)
    requires
        a.wf(),
        b.wf(),
    ensures
        merge(a, b).wf(),
        merge(a, b).path == a.path,
        merge(a, b).leaf == joined_leaf(a.leaf, b.leaf),
        a.priority <= merge(a, b).priority <= a.priority + b.priority,
        weight(a) <= weight(merge(a, b)) <= weight(a) + weight(b),
        forall|c: char|
            #![trigger child_at(merge(a, b), c)]
            child_at(merge(a, b), c) == merged_child(a, b, b.children.len(), c),
    decreases extent(a) + extent(b), b.children.len() + 1,
{
    let n = b.children.len();
    let m = merge_children(a, b, n);
    let r = merge(a, b);
    lemma_merge_children(a, b, n);
    assert(b.children.take(n as int) =~= b.children);
    lemma_merged_distinct(a.leaf.handlers, b.leaf.handlers);
    match (a.wildcard, b.wildcard) {
        (Some(x), Some(y)) => {
            lemma_merge(*x, *y);
        },
        _ => {},
    }
    match (a.catch_all, b.catch_all) {
        (Some(x), Some(y)) => {
            lemma_merged_distinct(x.leaf.handlers, y.leaf.handlers);
        },
        _ => {},
    }
    assert(r.children == m.children);
    assert(r.shaped());
    assert forall|c: char|
        #![trigger child_at(r, c)]
        child_at(r, c) == merged_child(a, b, n, c) by {
        assert(child_at(r, c) == child_at(m, c));
    }
}

/// The tree as it is attached is well-formed, and has the values below its root.
pub proof fn lemma_placed<V>(names: Option<Seq<Seq<char>>>, sub: Tree<V>)
    requires
        is_root(sub),
    ensures
        is_root(placed(names, sub)),
        placed(names, sub).path == sub.path,
        placed(names, sub).leaf.handlers.len() == 0,
        weight(placed(names, sub)) == sub.priority,
{
    let bare = with_handlers(sub, Seq::empty());
    assert(bare.children == sub.children);
    assert(bare.shaped());
    if names is Some {
        lemma_prefixed_wf(bare, names->0);
    }
}

/// Attaching keeps a tree well-formed, and the path of its root as it was. No value is lost, and
/// none comes in but those of the other tree.
pub proof fn lemma_attached_wf<V>(t: Tree<V>, names: Option<Seq<Seq<char>>>, sub: Tree<V>)
    requires
        t.wf(),
        is_root(sub),
    ensures
        attached(t, names, sub).wf(),
        attached(t, names, sub).path == t.path,
        t.priority <= attached(t, names, sub).priority <= t.priority + sub.priority,
        weight(t) <= weight(attached(t, names, sub)) <= weight(t) + weight(sub),
{
    let p = placed(names, sub);
    let u = Tree { leaf: attached_leaf(t, names, sub), ..t };
    lemma_placed(names, sub);
    lemma_merged_distinct(t.leaf.handlers, sub.leaf.handlers);
    assert(u.children == t.children);
    assert(u.shaped());
    if t.indices.contains('/') {
        let at = t.indices.index_of('/');
        let previous = t.children[at];
        let k = common_len(previous.path, p.path);
        lemma_meeting(previous, p, '/');
        lemma_merge(split(previous, k), split(p, k));
        lemma_put_child(u, at, meeting(previous, p));
    } else {
        lemma_add_child(u, '/', p);
    }
}

/// Attaching a tree below a path keeps a tree well-formed, and the path of its root as it was. No
/// value is lost, and none comes in but those of the other tree.
pub proof fn lemma_grafted_wf<V>(
    t: Tree<V>,
    path: Seq<char>,
    names: Option<Seq<Seq<char>>>,
    in_token: bool,
    sub: Tree<V>,
)
    requires
        t.wf(),
        is_root(sub),
    ensures
        grafted(t, path, names, in_token, sub).wf(),
        grafted(t, path, names, in_token, sub).path == t.path,
        t.priority <= grafted(t, path, names, in_token, sub).priority <= t.priority + weight(sub),
        weight(t) <= weight(grafted(t, path, names, in_token, sub)) <= weight(t) + weight(sub),
    decreases path.len(), t,
{
    if path.len() == 0 {
        lemma_attached_wf(t, names, sub);
    } else if path[0] == ':' && !in_token {
        let name = leading_name(path);
        let node = wildcard_of(t, name);
        let rest = path.skip(segment_len(path) as int);
        let more = Some(listed(names).push(name));
        lemma_segment(path);
        lemma_blank_wf::<V>(name);
        lemma_grafted_wf(node, rest, more, false, sub);
        lemma_put_wildcard(t, grafted(node, rest, more, false, sub));
    } else {
        let skipped = escape_len(path, in_token);
        let token = static_token(path, in_token);
        lemma_static_token(path, in_token);
        if t.indices.contains(token[0]) {
            lemma_child_prefix(t, token);
            let i = t.indices.index_of(token[0]);
            let child = t.children[i];
            let n = common_len(child.path, token);
            let rest = path.skip((skipped + n) as int);
            lemma_grafted_wf(split(child, n), rest, names, token[0] != '/', sub);
            lemma_put_child(t, i, grafted(split(child, n), rest, names, token[0] != '/', sub));
        } else {
            let rest = path.skip((skipped + token.len()) as int);
            let below = grafted(blank_tree(token), rest, names, token[0] != '/', sub);
            lemma_blank_wf::<V>(token);
            lemma_grafted_wf(blank_tree(token), rest, names, token[0] != '/', sub);
            lemma_add_child(t, token[0], below);
        }
    }
}

/// Behind the place where a child is cut in two, a path that goes another way than the child
/// finds nothing in its way.
pub proof fn lemma_graft_rejection_at_cut<V>(
    child: Tree<V>,
    n: nat,
    pattern: Seq<char>,
    names: Option<Seq<Seq<char>>>,
    sub_names: Option<Seq<Seq<char>>>,
    values: nat,
    path: Seq<char>,
)
    requires
        split(child, n).wf(),
        split(child, n).priority + values <= usize::MAX,
        n < child.path.len(),
        !child.path.contains('/'),
        pattern.len() > 0 ==> pattern[0] != child.path[n as int],
    ensures
        graft_rejection(split(child, n), pattern, names, true, sub_names, values)
            == graft_rejection(
            blank_tree::<V>(path),
            pattern,
            names,
            true,
            sub_names,
            values,
        ),
{
    let cut = split(child, n);
    assert(child.path.contains(child.path[n as int]));
    if pattern.len() > 0 {
        lemma_static_token(pattern, true);
        let token = static_token(pattern, true);
        if cut.indices.contains(token[0]) {
            assert(cut.indices[0] == token[0]);
        }
    } else {
        assert(!cut.indices.contains('/')) by {
            if cut.indices.contains('/') {
                assert(cut.indices[0] == '/');
            }
        }
        assert(!blank_tree::<V>(path).indices.contains('/'));
    }
}

} // verus!
