//! The static children of a node, found by their first characters.

use vstd::prelude::*;

use crate::model::{add_child, bubbled, put_child, swapped, with_child, with_new_child, Tree};
use crate::shape::lemma_no_duplicates_push;

verus! {

/// The static child that begins with a character.
pub open spec fn child_at<V>(t: Tree<V>, c: char) -> Option<Tree<V>> {
    if t.indices.contains(c) && t.indices.index_of(c) < t.children.len() {
        Some(t.children[t.indices.index_of(c)])
    } else {
        None
    }
}

/// In a list without repetition a character has one place.
pub proof fn lemma_index_of(list: Seq<char>, i: int)
    requires
        list.no_duplicates(),
        0 <= i < list.len(),
    ensures
        list.contains(list[i]),
        list.index_of(list[i]) == i,
{
    let j = list.index_of(list[i]);
    assert(list[j] == list[i]);
}

/// In a list without repetition a character does not stand before its place.
pub proof fn lemma_not_before(list: Seq<char>, i: int)
    requires
        list.no_duplicates(),
        0 <= i < list.len(),
    ensures
        !list.take(i).contains(list[i]),
{
    if list.take(i).contains(list[i]) {
        let k = list.take(i).index_of(list[i]);
        assert(list[k] == list[i]);
    }
}

/// The order of the children does not matter to who is found by a character.
proof fn lemma_swapped_child<V>(t: Tree<V>, i: int, j: int, c: char)
    requires
        t.indices.no_duplicates(),
        t.indices.len() == t.children.len(),
        0 <= i < j < t.children.len(),
    ensures
        child_at(swapped(t, i, j), c) == child_at(t, c),
        swapped(t, i, j).indices.no_duplicates(),
{
    let s = swapped(t, i, j);
    assert(s.indices.no_duplicates());
    if t.indices.contains(c) {
        let k = t.indices.index_of(c);
        let to = if k == i {
            j
        } else if k == j {
            i
        } else {
            k
        };
        assert(s.indices[to] == c);
        lemma_index_of(s.indices, to);
    } else if s.indices.contains(c) {
        let k = s.indices.index_of(c);
        let from = if k == i {
            j
        } else if k == j {
            i
        } else {
            k
        };
        assert(t.indices[from] == c);
        assert(false);
    }
}

/// Moving a child forward does not matter to who is found by a character.
proof fn lemma_bubbled_child<V>(t: Tree<V>, i: int, c: char)
    requires
        t.indices.no_duplicates(),
        t.indices.len() == t.children.len(),
        0 <= i < t.children.len(),
    ensures
        child_at(bubbled(t, i), c) == child_at(t, c),
        bubbled(t, i).leaf == t.leaf,
        bubbled(t, i).path == t.path,
        bubbled(t, i).wildcard == t.wildcard,
        bubbled(t, i).catch_all == t.catch_all,
    decreases i,
{
    if i > 0 && t.children[i].priority > t.children[i - 1].priority {
        lemma_swapped_child(t, i - 1, i, c);
        lemma_bubbled_child(swapped(t, i - 1, i), i - 1, c);
    }
}

/// A replaced child is found by its character, the others as before.
pub proof fn lemma_put_child_child<V>(t: Tree<V>, i: int, child: Tree<V>, c: char)
    requires
        t.indices.no_duplicates(),
        t.indices.len() == t.children.len(),
        0 <= i < t.children.len(),
    ensures
        child_at(put_child(t, i, child), c) == if c == t.indices[i] {
            Some(child)
        } else {
            child_at(t, c)
        },
        put_child(t, i, child).leaf == t.leaf,
        put_child(t, i, child).path == t.path,
        put_child(t, i, child).wildcard == t.wildcard,
        put_child(t, i, child).catch_all == t.catch_all,
{
    let u = Tree { children: t.children.update(i, child), ..t };
    lemma_bubbled_child(u, i, c);
    if t.indices.contains(c) {
        let k = t.indices.index_of(c);
        lemma_index_of(t.indices, k);
        if c == t.indices[i] {
            lemma_index_of(t.indices, i);
        }
    }
    assert(child_at(put_child(t, i, child), c) == child_at(with_child(t, i, child), c));
}

/// A new child is found by its character, the others as before.
pub proof fn lemma_add_child_child<V>(t: Tree<V>, index: char, child: Tree<V>, c: char)
    requires
        t.indices.no_duplicates(),
        t.indices.len() == t.children.len(),
        !t.indices.contains(index),
    ensures
        child_at(add_child(t, index, child), c) == if c == index {
            Some(child)
        } else {
            child_at(t, c)
        },
        add_child(t, index, child).leaf == t.leaf,
        add_child(t, index, child).path == t.path,
        add_child(t, index, child).wildcard == t.wildcard,
        add_child(t, index, child).catch_all == t.catch_all,
{
    let u = with_new_child(t, index, child);
    let n = t.children.len() as int;
    lemma_no_duplicates_push(t.indices, index);
    lemma_bubbled_child(u, n, c);
    assert(child_at(add_child(t, index, child), c) == child_at(bubbled(u, n), c));
    if c == index {
        lemma_index_of(u.indices, n);
    } else if t.indices.contains(c) {
        let k = t.indices.index_of(c);
        assert(u.indices[k] == c);
        lemma_index_of(u.indices, k);
    } else if u.indices.contains(c) {
        let k = u.indices.index_of(c);
        assert(u.indices[k] == c);
        assert(t.indices[k] == c);
        assert(false);
    }
}

} // verus!
