//! Entering patterns keeps a tree well-formed.

use vstd::prelude::*;

use crate::count::{lemma_bubbled_total, lemma_total_push, lemma_total_update};
use crate::method::{distinct, lemma_put_distinct};
use crate::model::{
    add_child, blank_tree, bubbled, catch_all_of, escape_len, find, fragment_fits, grown, is_end,
    is_full, leading_name, lemma_static_token, listed, named, put_catch_all, put_child,
    put_wildcard, recounted, registered, rejection, split, static_token, swapped, total, weight,
    weight_of, wildcard_of, with_child, with_handler, with_new_child, Leaf, Registration, Tree,
};
use crate::text::{common_len, lemma_common, lemma_segment, segment_len};

verus! {

/// A stretch of a slash-free text is slash-free.
proof fn lemma_no_slash(text: Seq<char>, part: Seq<char>, at: int)
    requires
        !text.contains('/'),
        0 <= at,
        at + part.len() <= text.len(),
        forall|i: int| 0 <= i < part.len() ==> part[i] == text[at + i],
    ensures
        !part.contains('/'),
{
    assert forall|i: int| 0 <= i < part.len() implies part[i] != '/' by {
        assert(text.contains(text[at + i]));
    }
}

/// Cutting a node in two keeps it well-formed.
pub proof fn lemma_split<V>(t: Tree<V>, index: char, n: nat)
    requires
        t.wf(),
        fragment_fits(index, t.path),
        n <= t.path.len(),
        t.path.len() > 0 && n == 0 ==> index == '/',
    ensures
        weight(split(t, n)) == weight(t),
        t.priority <= split(t, n).priority,
        split(t, n).wf(),
        split(t, n).path == t.path.take(n as int),
        fragment_fits(index, split(t, n).path),
{
    if n < t.path.len() {
        let child = Tree { path: t.path.skip(n as int), ..t };
        let cut = split(t, n);
        if n > 0 {
            lemma_no_slash(t.path, child.path, n as int);
        } else {
            assert(child.path =~= t.path);
        }
        assert(!t.path.take(n as int).contains('/')) by {
            if n > 0 {
                lemma_no_slash(t.path, t.path.take(n as int), 0);
            }
        }
        assert(child.children == t.children);
        assert(child.shaped());
        assert(child.wf());
        assert(cut.children.drop_last() =~= Seq::<Tree<V>>::empty());
        assert(cut.children.last() == child);
        assert(total(cut.children.drop_last()) == 0);
        assert(total(cut.children) == weight(child));
        assert(fragment_fits(cut.indices[0], cut.children[0].path));
        assert(cut.indices.no_duplicates());
        assert forall|i: int| 0 <= i < cut.children.len() implies fragment_fits(
            cut.indices[i],
            (#[trigger] cut.children[i]).path,
        ) && cut.children[i].wf() by {
            assert(cut.children[i] == child);
        }
    } else {
        assert(t.path.take(n as int) =~= t.path);
    }
}

/// Exchanging two static children keeps the shape of a node.
pub proof fn lemma_swapped_shaped<V>(t: Tree<V>, i: int, j: int)
    requires
        t.shaped(),
        0 <= i < j < t.children.len(),
    ensures
        swapped(t, i, j).shaped(),
{
    let s = swapped(t, i, j);
    assert forall|k: int| 0 <= k < s.children.len() implies fragment_fits(
        s.indices[k],
        (#[trigger] s.children[k]).path,
    ) && s.children[k].wf() by {
        let from = if k == i {
            j
        } else if k == j {
            i
        } else {
            k
        };
        assert(s.children[k] == t.children[from]);
        assert(s.indices[k] == t.indices[from]);
    }
}

/// Moving a static child forward keeps the shape of a node.
pub proof fn lemma_bubbled_shaped<V>(t: Tree<V>, i: int)
    requires
        t.shaped(),
        0 <= i < t.children.len(),
    ensures
        bubbled(t, i).shaped(),
    decreases i,
{
    if i > 0 && t.children[i].priority > t.children[i - 1].priority {
        lemma_swapped_shaped(t, i - 1, i);
        lemma_bubbled_shaped(swapped(t, i - 1, i), i - 1);
    }
}

/// A node of the right shape is well-formed once it is counted.
pub proof fn lemma_recounted_wf<V>(t: Tree<V>)
    requires
        t.shaped(),
    ensures
        recounted(t).wf(),
{
    let r = recounted(t);
    assert(r.children == t.children);
    assert(r.shaped());
}

/// Putting a well-formed static child in the place of another one keeps a node well-formed.
pub proof fn lemma_put_child<V>(t: Tree<V>, i: int, child: Tree<V>)
    requires
        t.wf(),
        0 <= i < t.children.len(),
        child.wf(),
        fragment_fits(t.indices[i], child.path),
    ensures
        put_child(t, i, child).wf(),
        put_child(t, i, child).path == t.path,
        put_child(t, i, child).leaf == t.leaf,
        put_child(t, i, child).priority + weight(t.children[i]) == t.priority + weight(child),
        weight(t.children[i]) <= t.priority,
{
    let u = Tree { children: t.children.update(i, child), ..t };
    assert forall|k: int| 0 <= k < u.children.len() implies fragment_fits(
        u.indices[k],
        (#[trigger] u.children[k]).path,
    ) && u.children[k].wf() by {
        if k != i {
            assert(u.children[k] == t.children[k]);
        }
    }
    assert(u.shaped());
    lemma_bubbled_shaped(u, i);
    lemma_bubbled_total(u, i);
    lemma_recounted_wf(with_child(t, i, child));
    lemma_total_update(t.children, i, child);
}

/// A new well-formed static child keeps a node well-formed.
pub proof fn lemma_add_child<V>(t: Tree<V>, index: char, child: Tree<V>)
    requires
        t.wf(),
        !t.indices.contains(index),
        child.wf(),
        fragment_fits(index, child.path),
    ensures
        add_child(t, index, child).wf(),
        add_child(t, index, child).path == t.path,
        add_child(t, index, child).leaf == t.leaf,
        add_child(t, index, child).priority == t.priority + weight(child),
{
    let u = with_new_child(t, index, child);
    let n = t.children.len() as int;
    assert forall|k: int| 0 <= k < u.children.len() implies fragment_fits(
        u.indices[k],
        (#[trigger] u.children[k]).path,
    ) && u.children[k].wf() by {
        if k < t.children.len() {
            assert(u.children[k] == t.children[k]);
        }
    }
    lemma_no_duplicates_push(t.indices, index);
    assert(u.shaped());
    lemma_bubbled_shaped(u, n);
    lemma_bubbled_total(u, n);
    lemma_recounted_wf(bubbled(u, n));
    lemma_total_push(t.children, child);
}

/// A character that a list does not hold can be added to it.
pub proof fn lemma_no_duplicates_push(list: Seq<char>, c: char)
    requires
        list.no_duplicates(),
        !list.contains(c),
    ensures
        list.push(c).no_duplicates(),
{
    let u = list.push(c);
    assert forall|a: int, b: int|
        0 <= a < u.len() && 0 <= b < u.len() && a != b implies u[a] != u[b] by {
        if a < list.len() {
            assert(list.contains(list[a]));
        }
        if b < list.len() {
            assert(list.contains(list[b]));
        }
    }
}

/// Another well-formed wildcard keeps a node well-formed.
pub proof fn lemma_put_wildcard<V>(t: Tree<V>, node: Tree<V>)
    requires
        t.wf(),
        node.wf(),
    ensures
        put_wildcard(t, node).wf(),
        put_wildcard(t, node).priority + weight_of(t.wildcard) == t.priority + weight(node),
        weight_of(t.wildcard) <= t.priority,
{
    let u = Tree { wildcard: Some(Box::new(node)), ..t };
    assert(u.children == t.children);
    assert(u.shaped());
    lemma_recounted_wf(u);
}

/// Another catch-all keeps a node well-formed.
pub proof fn lemma_put_catch_all<V>(t: Tree<V>, node: Tree<V>)
    requires
        t.wf(),
        is_end(node),
    ensures
        put_catch_all(t, node).wf(),
        put_catch_all(t, node).priority + weight_of(t.catch_all) == t.priority + weight(node),
        weight_of(t.catch_all) <= t.priority,
{
    let u = Tree { catch_all: Some(Box::new(node)), ..t };
    assert(u.children == t.children);
    assert(u.shaped());
    lemma_recounted_wf(u);
}

/// The common prefix with a fitting child is not empty, unless the child's path is.
pub proof fn lemma_child_prefix<V>(t: Tree<V>, token: Seq<char>)
    requires
        t.wf(),
        token.len() > 0,
        t.indices.contains(token[0]),
    ensures
        ({
            let i = t.indices.index_of(token[0]);
            let child = t.children[i];
            let n = common_len(child.path, token);
            &&& 0 <= i < t.children.len()
            &&& t.indices[i] == token[0]
            &&& child.wf()
            &&& fragment_fits(token[0], child.path)
            &&& n <= child.path.len()
            &&& n <= token.len()
            &&& child.path.len() > 0 ==> n > 0
            &&& weight(child) <= t.priority
            &&& weight(split(child, n)) == weight(child)
            &&& child.priority <= split(child, n).priority
            &&& split(child, n).wf()
            &&& split(child, n).path == child.path.take(n as int)
            &&& fragment_fits(token[0], split(child, n).path)
        }),
{
    let i = t.indices.index_of(token[0]);
    let child = t.children[i];
    lemma_common(child.path, token);
    assert(child.wf());
    assert(fragment_fits(token[0], child.path));
    lemma_split(child, token[0], common_len(child.path, token));
    lemma_total_update(t.children, i, child);
}

/// A leaf with one more handler still has one for each method, and one or two more at most.
pub proof fn lemma_registered_distinct<V>(leaf: Leaf<V>, r: Registration<V>)
    requires
        distinct(leaf.handlers),
    ensures
        distinct(registered(leaf, r).handlers),
        0 < registered(leaf, r).handlers.len(),
        leaf.handlers.len() <= registered(leaf, r).handlers.len() <= leaf.handlers.len() + 2,
{
    let explicit = with_handler(leaf, r.method, r.value, false, r.add_slash);
    lemma_put_distinct(leaf.handlers, r.method, r.value);
    lemma_put_distinct(explicit.handlers, "HEAD"@, r.value);
}

/// Entering a pattern keeps a tree well-formed, and the path of its root as it was. No node loses
/// values, and at most two come in.
pub proof fn lemma_grown_wf<V>(
    t: Tree<V>,
    pattern: Seq<char>,
    names: Option<Seq<Seq<char>>>,
    in_token: bool,
    r: Registration<V>,
)
    requires
        t.wf(),
    ensures
        grown(t, pattern, names, in_token, r).wf(),
        grown(t, pattern, names, in_token, r).path == t.path,
        t.priority <= grown(t, pattern, names, in_token, r).priority <= t.priority + 2,
        weight(t) <= weight(grown(t, pattern, names, in_token, r)) <= weight(t) + 2,
        pattern.len() > 0 ==> grown(t, pattern, names, in_token, r).leaf == t.leaf,
    decreases pattern.len(), t,
{
    let g = grown(t, pattern, names, in_token, r);
    if pattern.len() == 0 {
        assert(g.children == t.children);
        lemma_registered_distinct(named(t.leaf, names), r);
        assert(g.shaped());
    } else if pattern[0] == '*' && !in_token {
        let name = leading_name(pattern);
        let node = catch_all_of(t, name);
        lemma_registered_distinct(node.leaf, r);
        let leaf = Leaf { names: Some(listed(names).push(name)), ..registered(node.leaf, r) };
        lemma_put_catch_all(t, Tree { leaf, ..node });
    } else if pattern[0] == ':' && !in_token {
        let name = leading_name(pattern);
        let node = wildcard_of(t, name);
        let more = Some(listed(names).push(name));
        let rest = pattern.skip(segment_len(pattern) as int);
        lemma_segment(pattern);
        lemma_blank_wf::<V>(name);
        lemma_grown_wf(node, rest, more, false, r);
        lemma_put_wildcard(t, grown(node, rest, more, false, r));
    } else {
        let skipped = escape_len(pattern, in_token);
        let token = static_token(pattern, in_token);
        lemma_static_token(pattern, in_token);
        if t.indices.contains(token[0]) {
            lemma_child_prefix(t, token);
            let i = t.indices.index_of(token[0]);
            let child = t.children[i];
            let n = common_len(child.path, token);
            let rest = pattern.skip((skipped + n) as int);
            let below = grown(split(child, n), rest, names, token[0] != '/', r);
            lemma_grown_wf(split(child, n), rest, names, token[0] != '/', r);
            lemma_put_child(t, i, below);
        } else {
            let rest = pattern.skip((skipped + token.len()) as int);
            let below = grown(blank_tree(token), rest, names, token[0] != '/', r);
            lemma_blank_wf::<V>(token);
            lemma_grown_wf(blank_tree(token), rest, names, token[0] != '/', r);
            lemma_add_child(t, token[0], below);
        }
    }
}

/// A blank tree is well-formed.
pub proof fn lemma_blank_wf<V>(path: Seq<char>)
    ensures
        blank_tree::<V>(path).wf(),
        weight(blank_tree::<V>(path)) == 0,
{
    assert(blank_tree::<V>(path).shaped());
}

/// Behind the place where a child is cut in two, a pattern that goes another way than the child
/// finds nothing in its way.
pub proof fn lemma_rejection_at_cut<V>(
    child: Tree<V>,
    n: nat,
    pattern: Seq<char>,
    names: Option<Seq<Seq<char>>>,
    method: Seq<char>,
    path: Seq<char>,
)
    requires
        split(child, n).wf(),
        !is_full(split(child, n)),
        n < child.path.len(),
        pattern.len() > 0 ==> pattern[0] != child.path[n as int],
    ensures
        rejection(split(child, n), pattern, names, true, method) == rejection(
            blank_tree::<V>(path),
            pattern,
            names,
            true,
            method,
        ),
{
    let cut = split(child, n);
    if pattern.len() > 0 {
        lemma_static_token(pattern, true);
        let token = static_token(pattern, true);
        if cut.indices.contains(token[0]) {
            assert(cut.indices[0] == token[0]);
        }
    }
}

/// A character that the path does not hold is in no parameter, nor in what a catch-all matched.
pub proof fn lemma_plain_params<V>(t: Tree<V>, method: Seq<char>, path: Seq<char>, c: char)
    requires
        t.wf(),
        !path.contains(c),
    ensures
        find(t, method, path) matches Some(h) ==> {
            &&& forall|i: int| 0 <= i < h.params.len() ==> !(#[trigger] h.params[i]).contains(c)
            &&& h.leaf.is_catch_all() ==> !h.pattern.contains(c)
        },
    decreases t,
{
    if path.len() > 0 {
        if t.indices.contains(path[0]) {
            let child = t.children[t.indices.index_of(path[0])];
            if child.path.is_prefix_of(path) {
                let rest = path.skip(child.path.len() as int);
                lemma_plain_rest(path, child.path.len() as int, c);
                lemma_plain_params(child, method, rest, c);
            }
        }
        let n = segment_len(path) as int;
        lemma_segment(path);
        if let Some(w) = t.wildcard {
            if n > 0 {
                lemma_plain_rest(path, n, c);
                lemma_plain_params(*w, method, path.skip(n), c);
                match find(*w, method, path.skip(n)) {
                    Some(h) => {
                        let params = seq![path.take(n)] + h.params;
                        assert forall|i: int| 0 <= i < params.len() implies !(
                        #[trigger] params[i]).contains(c) by {
                            if i > 0 {
                                assert(params[i] == h.params[i - 1]);
                            }
                        }
                    },
                    None => {},
                }
            }
        }
    }
}

/// The two parts of a text hold no character that the text does not hold.
proof fn lemma_plain_rest(path: Seq<char>, n: int, c: char)
    requires
        !path.contains(c),
        0 <= n <= path.len(),
    ensures
        !path.skip(n).contains(c),
        !path.take(n).contains(c),
{
    assert forall|i: int| 0 <= i < path.skip(n).len() implies path.skip(n)[i] != c by {
        assert(path.contains(path[n + i]));
    }
    assert forall|i: int| 0 <= i < n implies path.take(n)[i] != c by {
        assert(path.contains(path[i]));
    }
}

} // verus!
