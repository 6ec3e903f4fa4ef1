//! The priority of a node is the number of values registered in its sub nodes.

use vstd::prelude::*;

use crate::model::{
    bubbled, count_below, counts_values, swapped, total, values_below, values_in, weight, Tree,
};

verus! {

/// A node that is replaced counts for what it holds, no longer for what was there.
pub proof fn lemma_total_update<V>(nodes: Seq<Tree<V>>, i: int, node: Tree<V>)
    requires
        0 <= i < nodes.len(),
    ensures
        total(nodes.update(i, node)) + weight(nodes[i]) == total(nodes) + weight(node),
        weight(nodes[i]) <= total(nodes),
    decreases nodes.len(),
{
    let changed = nodes.update(i, node);
    if i == nodes.len() - 1 {
        assert(changed.drop_last() =~= nodes.drop_last());
    } else {
        assert(changed.drop_last() =~= nodes.drop_last().update(i, node));
        lemma_total_update(nodes.drop_last(), i, node);
    }
}

/// A node that is added counts for what it holds.
pub proof fn lemma_total_push<V>(nodes: Seq<Tree<V>>, node: Tree<V>)
    ensures
        total(nodes.push(node)) == total(nodes) + weight(node),
{
    assert(nodes.push(node).drop_last() =~= nodes);
}

/// A node and those before it count for no more than all nodes.
pub proof fn lemma_total_part<V>(nodes: Seq<Tree<V>>, i: int)
    requires
        0 <= i < nodes.len(),
    ensures
        total(nodes.take(i)) + weight(nodes[i]) == total(nodes.take(i + 1)),
        total(nodes.take(i + 1)) <= total(nodes),
    decreases nodes.len() - i,
{
    assert(nodes.take(i + 1).drop_last() =~= nodes.take(i));
    assert(nodes.take(i + 1).last() == nodes[i]);
    if i + 1 < nodes.len() {
        lemma_total_part(nodes, i + 1);
    } else {
        assert(nodes.take(i + 1) =~= nodes);
    }
}

/// The order of the static children does not matter to the count.
pub proof fn lemma_bubbled_total<V>(t: Tree<V>, i: int)
    requires
        0 <= i < t.children.len(),
    ensures
        total(bubbled(t, i).children) == total(t.children),
        bubbled(t, i).wildcard == t.wildcard,
        bubbled(t, i).catch_all == t.catch_all,
        bubbled(t, i).leaf == t.leaf,
        bubbled(t, i).path == t.path,
        bubbled(t, i).priority == t.priority,
        count_below(bubbled(t, i)) == count_below(t),
    decreases i,
{
    if i > 0 && t.children[i].priority > t.children[i - 1].priority {
        let once = t.children.update(i - 1, t.children[i]);
        lemma_total_update(t.children, i - 1, t.children[i]);
        lemma_total_update(once, i, t.children[i - 1]);
        assert(once[i] == t.children[i]);
        lemma_bubbled_total(swapped(t, i - 1, i), i - 1);
    }
}

/// The priority of the first static children is what is below them.
proof fn lemma_values_in<V>(t: Tree<V>, n: nat)
    requires
        n <= t.children.len(),
        forall|i: int|
            #![trigger t.children[i]]
            0 <= i < t.children.len() ==> t.children[i].priority == values_below(t.children[i]),
    ensures
        values_in(t, n) == total(t.children.take(n as int)),
    decreases n,
{
    if n > 0 {
        lemma_values_in(t, (n - 1) as nat);
        assert(t.children.take(n as int).drop_last() =~= t.children.take(n - 1));
        assert(t.children.take(n as int).last() == t.children[n - 1]);
    }
}

/// The priority of every node is the number of values registered in its sub nodes: children,
/// grandchildren, and so on.
pub proof fn law_priority_counts_values<V>(t: Tree<V>)
    requires
        t.wf(),
    ensures
        t.priority == values_below(t),
        counts_values(t),
    decreases t,
{
    assert forall|i: int|
        #![trigger t.children[i]]
        0 <= i < t.children.len() implies t.children[i].priority == values_below(t.children[i])
        && counts_values(t.children[i]) by {
        law_priority_counts_values(t.children[i]);
    }
    if let Some(w) = t.wildcard {
        law_priority_counts_values(*w);
    }
    if let Some(c) = t.catch_all {
        assert(values_in(*c, 0) == 0);
        assert(values_below(*c) == 0);
        assert(counts_values(*c));
    }
    lemma_values_in(t, t.children.len());
    assert(t.children.take(t.children.len() as int) =~= t.children);
}

} // verus!
