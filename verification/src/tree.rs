//! The tree of routes.

use std::borrow::Cow;
use std::sync::Arc;

use vstd::prelude::*;

use crate::children::{child_at, lemma_not_before};
use crate::count::{lemma_bubbled_total, lemma_total_part, lemma_total_push, lemma_total_update};
use crate::decode::{all_decoded, decode, decode_all, decoded, decodes_to};
use crate::dump::{child_listings, line, listing, write_debug, write_decimal, write_two_digits};
use crate::graft::{
    attached, attached_leaf, extended, extension_refused, extent, extent_of, graft_rejection,
    grafted, is_root, joined_end, joined_leaf, lemma_extent_meeting, lemma_graft_rejection_at_cut,
    lemma_grafted_wf, lemma_meeting, lemma_merge, lemma_merge_children, lemma_placed, meeting,
    merge, merge_children, placed, prefixed, prefixed_leaf, with_handlers,
};
use crate::method::{join_names, lemma_merged_distinct, share, value_of, Method, MethodMap};
use crate::model::{
    add_child, better, blank_tree, bubbled, catch_all_of, entered, escape_len, find, find_static,
    find_wildcard, grown, is_end, is_taken, leading_name, lemma_static_token, listed, named,
    names_clash, put_child, refused, registered, rejection, split, static_token, swapped, taken,
    weight, weight_of, wildcard_of, with_handler, with_new_child, Hit, Leaf, Registration,
    RouteError, Tree,
};
use crate::params::{zip_params, zipped, Params};
use crate::shape::{
    lemma_blank_wf, lemma_child_prefix, lemma_grown_wf, lemma_plain_params,
    lemma_registered_distinct, lemma_rejection_at_cut,
};
use crate::text::{
    common_len, copy_list, count_common, count_segment, cow_text, join, lemma_common, lemma_segment,
    same_list, same_text, segment_len, skip_chars, strip_start_slash, take_chars, texts,
    without_start_slash,
};

verus! {

/// The names of wildcards.
pub open spec fn names_view(names: Option<Vec<String>>) -> Option<Seq<Seq<char>>> {
    match names {
        Some(list) => Some(texts(list@)),
        None => None,
    }
}

/// A node in a radix tree ordered by priority.
///
/// Priority is just the number of values registered in sub nodes (children, grandchildren, and so
/// on).
#[derive(Debug)]
pub struct Node<V> {
    path: String,
    priority: usize,
    static_indices: Vec<char>,
    static_child: Vec<Node<V>>,
    wildcard_child: Option<Box<Node<V>>>,
    catch_all_child: Option<Box<Node<V>>>,
    add_slash: bool,
    is_catch_all: bool,
    implicit_head: bool,
    leaf_handler: MethodMap<V>,
    leaf_wildcard_names: Option<Vec<String>>,
}

/// A value on its way to the node that is to hold it.
#[derive(Debug)]
pub struct Handler<V> {
    pub method: Method,
    pub value: Arc<V>,
    pub implicit_head: bool,
    pub head_can_use_get: bool,
    pub add_slash: bool,
}

impl<V> Handler<V> {
    /// What is to be registered.
    pub open spec fn registration(self) -> Registration<V> {
        Registration {
            method: self.method@,
            value: *self.value,
            head_can_use_get: self.head_can_use_get,
            add_slash: self.add_slash,
        }
    }
}

/// Where the list holds the character.
fn find_char(list: &Vec<char>, c: char) -> (r: Option<usize>)
    requires
        list@.no_duplicates(),
    ensures
        match r {
            Some(i) => i < list@.len() && list@.contains(c) && i == list@.index_of(c),
            None => !list@.contains(c),
        },
{
    let mut i: usize = 0;
    while i < list.len()
        invariant
            i <= list@.len(),
            list@.no_duplicates(),
            forall|j: int| 0 <= j < i ==> list@[j] != c,
        decreases list@.len() - i,
    {
        if list[i] == c {
            assert(list@[i as int] == c);
            assert(list@[list@.index_of(c)] == c);
            return Some(i);
        }
        i += 1;
    }
    None
}

/// Counts the characters that are dropped in front of a static token.
fn count_escape(path: &str, in_static_token: bool) -> (r: usize)
    ensures
        r == escape_len(path@, in_static_token),
{
    proof {
        lemma_segment(path@);
    }
    if !in_static_token && count_segment(path) >= 2 && path.get_char(0) == '\\' {
        let c: char = path.get_char(1);
        if c == '*' || c == ':' || c == '\\' {
            1
        } else {
            0
        }
    } else {
        0
    }
}

/// The static token that the path begins with.
fn leading_token(path: &str, in_static_token: bool) -> (r: &str)
    requires
        path@.len() > 0,
    ensures
        r@ == static_token(path@, in_static_token),
{
    proof {
        lemma_segment(path@);
        lemma_static_token(path@, in_static_token);
    }
    if path.get_char(0) == '/' {
        let r = take_chars(path, 1);
        assert(r@ =~= seq!['/']);
        r
    } else {
        skip_chars(take_chars(path, count_segment(path)), count_escape(path, in_static_token))
    }
}

/// The name of the wildcard or catch-all that the path begins with.
fn token_name(path: &str) -> (r: &str)
    requires
        path@.len() > 0,
        path@[0] != '/',
    ensures
        r@ == leading_name(path@),
{
    proof {
        lemma_segment(path@);
    }
    skip_chars(take_chars(path, count_segment(path)), 1)
}

/// The names with one more at the end.
fn with_name(names: Option<Vec<String>>, name: &str) -> (r: Vec<String>)
    ensures
        texts(r@) == listed(names_view(names)).push(name@),
{
    let ghost before = listed(names_view(names));
    let mut list: Vec<String> = match names {
        Some(list) => list,
        None => Vec::new(),
    };
    assert(texts(list@) =~= before);
    list.push(name.to_owned());
    assert(texts(list@) =~= before.push(name@));
    list
}

/// Copies the names.
fn copy_names(names: &Option<Vec<String>>) -> (r: Option<Vec<String>>)
    ensures
        names_view(r) == names_view(*names),
{
    match names {
        Some(list) => Some(copy_list(list)),
        None => None,
    }
}

/// Why the names of the wildcards on the way do not go with those that a node has.
fn clashing(had: &Option<Vec<String>>, names: &Option<Vec<String>>) -> (r: Option<RouteError>)
    ensures
        r == names_clash(names_view(*had), names_view(*names)),
{
    match (had, names) {
        (Some(old_names), Some(new_names)) => {
            if old_names.len() != new_names.len() {
                Some(RouteError::WildcardCount)
            } else if !same_list(old_names, new_names) {
                Some(RouteError::WildcardNames)
            } else {
                None
            }
        },
        _ => None,
    }
}

/// A value, and the method and path pattern that it is to be registered for.
#[derive(Debug)]
pub struct HandlerConfig<'a, V> {
    pub method: Method,
    pub path: Cow<'a, str>,
    pub implicit_head: bool,
    /// Whether a value for `GET` also serves `HEAD`.
    pub head_can_use_get: bool,
    /// Whether the pattern was written with a trailing slash.
    pub add_slash: bool,
    pub value: V,
}

impl<'a, V> HandlerConfig<'a, V> {
    /// The configuration with nothing switched on.
    pub fn new(method: Method, path: Cow<'a, str>, value: V) -> (r: HandlerConfig<'a, V>)
        ensures
            r == (HandlerConfig {
                method,
                path,
                implicit_head: false,
                head_can_use_get: false,
                add_slash: false,
                value,
            }),
    {
        HandlerConfig {
            method,
            path,
            implicit_head: false,
            add_slash: false,
            head_can_use_get: false,
            value,
        }
    }

    /// What is to be registered.
    pub open spec fn registration(self) -> Registration<V> {
        Registration {
            method: self.method@,
            value: self.value,
            head_can_use_get: self.head_can_use_get,
            add_slash: self.add_slash,
        }
    }
}

impl<'a, V: Default> Default for HandlerConfig<'a, V> {
    fn default() -> (r: Self)
        ensures
            r.method@ == "GET"@,
            r.path@ == Seq::<char>::empty(),
            !r.implicit_head,
            !r.head_can_use_get,
            !r.add_slash,
            call_ensures(V::default, (), r.value),
    {
        let empty: String = String::new();
        assert(empty@ =~= Seq::<char>::empty());
        HandlerConfig::new(Method::GET, Cow::Owned(empty), V::default())
    }
}

impl<V> Default for Node<V> {
    fn default() -> (r: Self)
        ensures
            r.tree() == blank_tree::<V>(Seq::empty()),
    {
        let empty: String = String::new();
        assert(empty@ =~= Seq::<char>::empty());
        Node::blank(empty)
    }
}

/// The tree of a node that may be there.
pub closed spec fn subtree<V>(node: Option<Box<Node<V>>>) -> Option<Box<Tree<V>>> {
    match node {
        Some(n) => Some(Box::new(n.tree())),
        None => None,
    }
}

/// Where a static child was cut and then changed, that child is all that changed.
proof fn lemma_one_child_changed<V>(
    before: Node<V>,
    cut: Node<V>,
    after: Node<V>,
    i: int,
    child: Tree<V>,
)
    requires
        0 <= i < cut.static_child@.len(),
        0 <= i < before.tree().children.len(),
        cut.tree() == (Tree { children: before.tree().children.update(i, child), ..before.tree() }),
        after == (Node { static_child: after.static_child, ..cut }),
        after.static_child@ == cut.static_child@.update(i, after.static_child@[i]),
    ensures
        after.tree() == (Tree {
            children: before.tree().children.update(i, after.static_child@[i].tree()),
            ..before.tree()
        }),
{
    after.lemma_child(i);
    cut.lemma_child(i);
    assert(cut.tree().children.len() == before.tree().children.len());
    assert forall|k: int| 0 <= k < cut.static_child@.len() && k != i implies (
    #[trigger] after.tree().children[k]) == before.tree().children[k] by {
        cut.lemma_child(k);
        after.lemma_child(k);
        assert(after.static_child@[k] == cut.static_child@[k]);
    }
    assert(after.tree().children =~= before.tree().children.update(
        i,
        after.static_child@[i].tree(),
    ));
}

/// Whether the match has a value for the method.
fn is_handled<V>(found: &Option<Match<'_, V>>) -> (r: bool)
    ensures
        r == (*found is Some && (*found)->0.value is Some),
{
    match found {
        Some(m) => m.value.is_some(),
        None => false,
    }
}

/// What the lookup of a path found.
#[derive(Debug)]
pub struct Match<'a, V> {
    /// The value for the method.
    pub value: Option<&'a V>,
    /// What the wildcards and the catch-all matched.
    pub params: Vec<String>,
    /// The route path.
    pub path: Cow<'a, str>,
    pub pattern: Cow<'a, str>,
    pub implicit_head: bool,
    pub add_slash: bool,
    pub is_catch_all: bool,
    /// The names of the wildcards and the catch-all.
    pub param_names: Vec<String>,
    /// The values for all methods.
    pub leaf_handler: &'a MethodMap<V>,
    /// The route parameters.
    pub parameters: Params,
}

impl<'a, V> Match<'a, V> {
    /// Whether the match shows what was found.
    pub open spec fn shows(self, h: Hit<V>) -> bool {
        &&& match self.value {
            Some(v) => h.value == Some(*v),
            None => h.value is None,
        }
        &&& texts(self.params@) == h.params
        &&& self.path@ == h.path
        &&& self.pattern@ == h.pattern
        &&& texts(self.param_names@) == h.names
        &&& self.implicit_head == h.leaf.implicit_head
        &&& self.add_slash == h.leaf.add_slash
        &&& self.is_catch_all == h.leaf.is_catch_all()
        &&& self.leaf_handler@ == h.leaf.handlers
    }

    /// Pairs the names with what was matched.
    pub fn update_parameters(&mut self)
        ensures
            final(self).parameters@ == zipped(
                texts(old(self).param_names@),
                texts(old(self).params@),
            ),
            (Match { parameters: old(self).parameters, ..*final(self) }) == *old(self),
    {
        self.parameters = zip_params(&self.param_names, &self.params);
    }
}

impl<V> Node<V> {
    /// What the node holds for the path that ends at it.
    pub closed spec fn leaf(self) -> Leaf<V> {
        Leaf {
            handlers: self.leaf_handler@,
            names: names_view(self.leaf_wildcard_names),
            add_slash: self.add_slash,
            implicit_head: self.implicit_head,
            catch_all: if self.is_catch_all {
                Some(self.path@)
            } else {
                None
            },
        }
    }

    /// The tree as a mathematical value.
    pub closed spec fn tree(self) -> Tree<V>
        decreases self,
    {
        Tree {
            path: self.path@,
            priority: self.priority as nat,
            indices: self.static_indices@,
            children: Seq::new(
                self.static_child@.len(),
                |i: int|
                    if 0 <= i < self.static_child@.len() {
                        self.static_child@[i].tree()
                    } else {
                        arbitrary()
                    },
            ),
            wildcard: match self.wildcard_child {
                Some(w) => Some(Box::new(w.tree())),
                None => None,
            },
            catch_all: match self.catch_all_child {
                Some(c) => Some(Box::new(c.tree())),
                None => None,
            },
            leaf: self.leaf(),
        }
    }

    /// What a static child contributes to the tree.
    proof fn lemma_child(self, i: int)
        requires
            0 <= i < self.static_child@.len(),
        ensures
            self.tree().children.len() == self.static_child@.len(),
            self.tree().children[i] == self.static_child@[i].tree(),
            self.static_child@[i].tree().priority == self.static_child@[i].priority,
            self.static_child@[i].tree().path == self.static_child@[i].path@,
    {
    }

    /// What a node contributes to the tree itself.
    proof fn lemma_fields(self)
        ensures
            self.tree().path == self.path@,
            self.tree().priority == self.priority,
    {
    }

    /// A node without handlers and children.
    fn blank(path: String) -> (r: Self)
        ensures
            r.tree() == blank_tree::<V>(path@),
    {
        let r = Node {
            path,
            priority: 0,
            static_indices: Vec::new(),
            static_child: Vec::new(),
            wildcard_child: None,
            catch_all_child: None,
            add_slash: false,
            is_catch_all: false,
            implicit_head: true,
            leaf_handler: MethodMap::new(),
            leaf_wildcard_names: None,
        };
        assert(r.tree().children =~= Seq::<Tree<V>>::empty());
        assert(r.tree().indices =~= Seq::<char>::empty());
        r
    }

    /// The root of a tree without routes.
    pub fn new() -> (r: Self)
        ensures
            r.tree() == blank_tree::<V>("/"@),
    {
        Node::blank("/".to_owned())
    }

    /// Moves a static child in front of those that have a lower priority.
    fn sort_static_child(&mut self, i: usize)
        requires
            old(self).tree().indices.len() == old(self).tree().children.len(),
            i < old(self).tree().children.len(),
        ensures
            final(self).tree() == bubbled(old(self).tree(), i as int),
    {
        let ghost start = i as int;
        let mut i: usize = i;
        while i > 0 && self.static_child[i].priority > self.static_child[i - 1].priority
            invariant
                self.static_indices@.len() == self.static_child@.len(),
                i < self.static_child@.len(),
                bubbled(self.tree(), i as int) == bubbled(old(self).tree(), start),
            decreases i,
        {
            let ghost before = *self;
            let child = self.static_child.remove(i);
            self.static_child.insert(i - 1, child);
            let index: char = self.static_indices.remove(i);
            self.static_indices.insert(i - 1, index);
            proof {
                let t = before.tree();
                let s = self.tree();
                before.lemma_child(i as int);
                before.lemma_child(i - 1);
                assert(s.children =~= swapped(t, i - 1, i as int).children);
                assert(s.indices =~= swapped(t, i - 1, i as int).indices);
            }
            i -= 1;
        }
        proof {
            self.lemma_child(i as int);
            if i > 0 {
                self.lemma_child(i - 1);
            }
        }
    }

    /// Sets the value for a method.
    fn set_handler(&mut self, method: Method, handler: Arc<V>, implicit_head: bool, add_slash: bool)
        requires
            !is_taken(old(self).tree().leaf, method@),
        ensures
            final(self).tree() == (Tree {
                leaf: with_handler(
                    old(self).tree().leaf,
                    method@,
                    *handler,
                    implicit_head,
                    add_slash,
                ),
                ..old(self).tree()
            }),
    {
        if method.same(&Method::HEAD) {
            self.implicit_head = implicit_head;
        }
        self.add_slash = self.add_slash || add_slash;
        self.leaf_handler.insert(method, handler);
    }

    /// Registers a value at this node.
    fn register(&mut self, handler: Handler<V>)
        requires
            !is_taken(old(self).tree().leaf, handler.method@),
        ensures
            final(self).tree() == (Tree {
                leaf: registered(old(self).tree().leaf, handler.registration()),
                ..old(self).tree()
            }),
    {
        let value: Arc<V> = handler.value;
        let also_head = handler.head_can_use_get && handler.method.same(&Method::GET);
        self.set_handler(handler.method, share(&value), false, handler.add_slash);
        if also_head && !self.leaf_handler.contains_key(&Method::HEAD) {
            self.set_handler(Method::HEAD, value, true, handler.add_slash);
        }
    }

    /// The number of values at this node and in its sub nodes.
    fn weight(&self) -> (r: usize)
        requires
            weight(self.tree()) <= usize::MAX,
        ensures
            r == weight(self.tree()),
    {
        self.leaf_handler.len() + self.priority
    }

    /// Moves a static child that was replaced to its place, and counts anew.
    fn settle_child(
        &mut self,
        i: usize,
        before: usize,
        Ghost(t): Ghost<Tree<V>>,
        Ghost(child): Ghost<Tree<V>>,
    )
        requires
            t.wf(),
            i < t.children.len(),
            old(self).tree() == (Tree { children: t.children.update(i as int, child), ..t }),
            before == weight(t.children[i as int]),
            t.priority - before + weight(child) <= usize::MAX,
        ensures
            final(self).tree() == put_child(t, i as int, child),
    {
        let ghost u = self.tree();
        proof {
            lemma_total_update(t.children, i as int, child);
            lemma_bubbled_total(u, i as int);
            self.lemma_child(i as int);
            assert(self.static_child@[i as int].tree() == child);
        }
        let after: usize = self.static_child[i].weight();
        self.sort_static_child(i);
        let ghost sorted = self.tree();
        self.priority = self.priority - before + after;
        assert(self.tree().children =~= sorted.children);
    }

    /// Adds a static child and moves it to its place.
    fn add_child(&mut self, index: char, child: Node<V>)
        requires
            old(self).tree().wf(),
            old(self).tree().priority + weight(child.tree()) <= usize::MAX,
        ensures
            final(self).tree() == add_child(old(self).tree(), index, child.tree()),
    {
        let ghost t = self.tree();
        let ghost node = child.tree();
        let added: usize = child.weight();
        let n: usize = self.static_child.len();
        self.static_indices.push(index);
        self.static_child.push(child);
        proof {
            assert(self.tree().children =~= t.children.push(node));
            assert(self.tree() == with_new_child(t, index, node));
            lemma_total_push(t.children, node);
            lemma_bubbled_total(self.tree(), n as int);
        }
        self.sort_static_child(n);
        let ghost sorted = self.tree();
        self.priority = self.priority + added;
        assert(self.tree().children =~= sorted.children);
    }

    /// Cuts this node in two after the first `n` characters of its path.
    fn split_at(&mut self, n: usize)
        requires
            old(self).tree().wf(),
            weight(old(self).tree()) <= usize::MAX,
            n <= old(self).tree().path.len(),
        ensures
            final(self).tree() == split(old(self).tree(), n as nat),
            n == old(self).tree().path.len() ==> *final(self) == *old(self),
    {
        let ghost before = *self;
        if n == self.path.as_str().unicode_len() {
            return;
        }
        let head: String = take_chars(self.path.as_str(), n).to_owned();
        let tail: String = skip_chars(self.path.as_str(), n).to_owned();
        let mut node: Node<V> = Node::blank(head);
        node.priority = self.weight();
        node.static_indices.push(tail.as_str().get_char(0));
        std::mem::swap(self, &mut node);
        node.path = tail;
        self.static_child.push(node);
        proof {
            let expected = split(before.tree(), n as nat);
            self.lemma_child(0);
            let made = self.tree();
            assert(made.children[0] == node.tree());
            assert(node.tree().children =~= before.tree().children);
            assert(node.tree() == expected.children[0]);
            assert(made.children =~= expected.children);
            assert(made.indices =~= expected.indices);
            assert(made == expected);
        }
    }

    /// Cuts a static child in two where its path and the given text part, and counts the
    /// characters that they share.
    fn split_common_prefix(&mut self, existing_node_index: usize, path: &str) -> (r: usize)
        requires
            existing_node_index < old(self).tree().children.len(),
            old(self).tree().children[existing_node_index as int].wf(),
            weight(old(self).tree().children[existing_node_index as int]) <= usize::MAX,
        ensures
            r == common_len(old(self).tree().children[existing_node_index as int].path, path@),
            final(self).tree() == (Tree {
                children: old(self).tree().children.update(
                    existing_node_index as int,
                    split(old(self).tree().children[existing_node_index as int], r as nat),
                ),
                ..old(self).tree()
            }),
            r == old(self).tree().children[existing_node_index as int].path.len() ==> *final(self)
                == *old(self),
    {
        let ghost before = *self;
        let ghost at = existing_node_index as int;
        proof {
            self.lemma_child(at);
            lemma_common(self.static_child@[at].path@, path@);
        }
        let i: usize = count_common(self.static_child[existing_node_index].path.as_str(), path);
        if i == self.static_child[existing_node_index].path.as_str().unicode_len() {
            assert(self.tree().children =~= self.tree().children.update(at, self.tree().children[at]));
            return i;
        }
        self.static_child[existing_node_index].split_at(i);
        proof {
            self.lemma_child(at);
            assert(self.tree().children =~= before.tree().children.update(
                at,
                split(before.tree().children[at], i as nat),
            ));
        }
        i
    }

    /// Enters a pattern below this node. The names are those of the wildcards on the way to it.
    #[verifier::spinoff_prover]
    #[verifier::rlimit(40)]
    pub fn add_path(
        &mut self,
        path: &str,
        wildcards: Option<Vec<String>>,
        in_static_token: bool,
        handler: Handler<V>,
    )
        requires
            old(self).tree().wf(),
            rejection(
                old(self).tree(),
                path@,
                names_view(wildcards),
                in_static_token,
                handler.method@,
            ) is None,
        ensures
            final(self).tree() == grown(
                old(self).tree(),
                path@,
                names_view(wildcards),
                in_static_token,
                handler.registration(),
            ),
            final(self).tree().wf(),
        decreases path@.len(), *old(self), 1nat,
    {
        let ghost before = *self;
        let ghost names = names_view(wildcards);
        let ghost reg = handler.registration();
        proof {
            lemma_grown_wf(self.tree(), path@, names, in_static_token, reg);
        }
        if path.is_empty() {
            if self.leaf_wildcard_names.is_none() {
                self.leaf_wildcard_names = wildcards;
            }
            assert(self.tree() == (Tree { leaf: named(before.tree().leaf, names), ..before.tree() }));
            self.register(handler);
            return;
        }
        let c: char = path.get_char(0);
        if c == '*' && !in_static_token {
            self.add_catch_all(path, wildcards, handler);
        } else if c == ':' && !in_static_token {
            self.add_wildcard(path, wildcards, handler);
        } else {
            self.add_static(path, wildcards, in_static_token, handler);
        }
    }

    /// Enters a pattern that begins with a catch-all.
    fn add_catch_all(
        &mut self,
        path: &str,
        wildcards: Option<Vec<String>>,
        handler: Handler<V>,
    )
        requires
            old(self).tree().wf(),
            path@.len() > 0,
            path@[0] == '*',
            rejection(
                old(self).tree(),
                path@,
                names_view(wildcards),
                false,
                handler.method@,
            ) is None,
        ensures
            final(self).tree() == grown(
                old(self).tree(),
                path@,
                names_view(wildcards),
                false,
                handler.registration(),
            ),
    {
        let ghost before = *self;
        let ghost names = names_view(wildcards);
        let ghost reg = handler.registration();
        proof {
            lemma_segment(path@);
        }
        let name = token_name(path);
        let held: usize = match &self.catch_all_child {
            Some(node) => node.weight(),
            None => 0,
        };
        if self.catch_all_child.is_none() {
            let mut node: Node<V> = Node::blank(name.to_owned());
            node.is_catch_all = true;
            self.catch_all_child = Some(Box::new(node));
        }
        let list: Vec<String> = with_name(wildcards, name);
        let mut after: usize = 0;
        match &mut self.catch_all_child {
            Some(node) => {
                assert(node.tree() == catch_all_of(before.tree(), name@));
                proof {
                    lemma_registered_distinct(node.tree().leaf, reg);
                }
                node.register(handler);
                node.leaf_wildcard_names = Some(list);
                assert(node.tree().leaf == (Leaf {
                    names: Some(listed(names).push(name@)),
                    ..registered(catch_all_of(before.tree(), name@).leaf, reg)
                }));
                assert(node.tree() == (Tree {
                    leaf: node.tree().leaf,
                    ..catch_all_of(before.tree(), name@)
                }));
                after = node.weight();
            },
            None => {},
        }
        self.priority = self.priority - held + after;
        assert(self.tree().children =~= before.tree().children);
        assert(self.tree() == grown(before.tree(), path@, names, false, reg));
    }

    /// Enters a pattern that begins with a wildcard.
    fn add_wildcard(
        &mut self,
        path: &str,
        wildcards: Option<Vec<String>>,
        handler: Handler<V>,
    )
        requires
            old(self).tree().wf(),
            path@.len() > 0,
            path@[0] == ':',
            rejection(
                old(self).tree(),
                path@,
                names_view(wildcards),
                false,
                handler.method@,
            ) is None,
        ensures
            final(self).tree() == grown(
                old(self).tree(),
                path@,
                names_view(wildcards),
                false,
                handler.registration(),
            ),
        decreases path@.len(), *old(self), 0nat,
    {
        let ghost before = *self;
        let ghost names = names_view(wildcards);
        let ghost reg = handler.registration();
        proof {
            lemma_segment(path@);
        }
        let name = token_name(path);
        let held: usize = match &self.wildcard_child {
            Some(node) => node.weight(),
            None => 0,
        };
        proof {
            lemma_blank_wf::<V>(name@);
        }
        if self.wildcard_child.is_none() {
            self.wildcard_child = Some(Box::new(Node::blank(name.to_owned())));
        }
        let list: Vec<String> = with_name(wildcards, name);
        let rest = skip_chars(path, count_segment(path));
        let mut after: usize = 0;
        match &mut self.wildcard_child {
            Some(node) => {
                assert(node.tree() == wildcard_of(before.tree(), name@));
                proof {
                    lemma_grown_wf(node.tree(), rest@, names_view(Some(list)), false, reg);
                }
                node.add_path(rest, Some(list), false, handler);
                after = node.weight();
            },
            None => {},
        }
        self.priority = self.priority - held + after;
        assert(self.tree().children =~= before.tree().children);
        assert(self.tree() == grown(before.tree(), path@, names, false, reg));
    }

    /// Enters a pattern that begins with static text.
    #[verifier::spinoff_prover]
    #[verifier::rlimit(40)]
    fn add_static(
        &mut self,
        path: &str,
        wildcards: Option<Vec<String>>,
        in_static_token: bool,
        handler: Handler<V>,
    )
        requires
            old(self).tree().wf(),
            path@.len() > 0,
            in_static_token || (path@[0] != '*' && path@[0] != ':'),
            rejection(
                old(self).tree(),
                path@,
                names_view(wildcards),
                in_static_token,
                handler.method@,
            ) is None,
        ensures
            final(self).tree() == grown(
                old(self).tree(),
                path@,
                names_view(wildcards),
                in_static_token,
                handler.registration(),
            ),
        decreases path@.len(), *old(self), 0nat,
    {
        let ghost before = *self;
        let ghost names = names_view(wildcards);
        let ghost reg = handler.registration();
        let len: usize = path.unicode_len();
        let skipped: usize = count_escape(path, in_static_token);
        let token = leading_token(path, in_static_token);
        proof {
            lemma_static_token(path@, in_static_token);
        }
        let t0: char = token.get_char(0);
        match find_char(&self.static_indices, t0) {
            Some(i) => {
                proof {
                    lemma_child_prefix(self.tree(), token@);
                    self.lemma_child(i as int);
                }
                let held: usize = self.static_child[i].weight();
                let shared: usize = self.split_common_prefix(i, token);
                assert(skipped + shared <= len);
                let rest = skip_chars(path, skipped + shared);
                let ghost cut = *self;
                proof {
                    assert(self.tree().children.len() == self.static_child@.len());
                    self.lemma_child(i as int);
                    lemma_grown_wf(self.tree().children[i as int], rest@, names, t0 != '/', reg);
                }
                self.static_child[i].add_path(rest, wildcards, t0 != '/', handler);
                let ghost below = self.static_child@[i as int].tree();
                proof {
                    let child = before.tree().children[i as int];
                    assert(below == grown(split(child, shared as nat), rest@, names, t0 != '/', reg));
                    lemma_one_child_changed(before, cut, *self, i as int, split(child, shared as nat));
                }
                self.settle_child(i, held, Ghost(before.tree()), Ghost(below));
            },
            None => {
                let rest = skip_chars(path, skipped + token.unicode_len());
                let mut child: Node<V> = Node::blank(token.to_owned());
                proof {
                    lemma_blank_wf::<V>(token@);
                    lemma_grown_wf(child.tree(), rest@, names, t0 != '/', reg);
                }
                child.add_path(rest, wildcards, t0 != '/', handler);
                self.add_child(t0, child);
            },
        }
    }

    /// Why a pattern cannot be entered below this node for the method.
    #[verifier::spinoff_prover]
    #[verifier::rlimit(40)]
    pub fn refusal(
        &self,
        path: &str,
        wildcards: &Option<Vec<String>>,
        in_static_token: bool,
        method: &Method,
    ) -> (r: Option<RouteError>)
        requires
            self.tree().wf(),
        ensures
            r == rejection(
                self.tree(),
                path@,
                names_view(*wildcards),
                in_static_token,
                method@,
            ),
        decreases path@.len(), *self,
    {
        let ghost names = names_view(*wildcards);
        if path.is_empty() {
            return match clashing(&self.leaf_wildcard_names, wildcards) {
                Some(e) => Some(e),
                None => self.taken_by(method),
            };
        }
        if self.priority > usize::MAX - 2 {
            return Some(RouteError::TooManyRoutes);
        }
        let c: char = path.get_char(0);
        let len: usize = path.unicode_len();
        proof {
            lemma_segment(path@);
        }
        if c == '*' && !in_static_token {
            let name = token_name(path);
            let whole = count_segment(path) == len;
            assert(path@.take(len as int) =~= path@);
            match &self.catch_all_child {
                Some(node) => {
                    assert(node.tree() == catch_all_of(self.tree(), name@));
                    if !whole || !same_text(name, node.path.as_str()) {
                        Some(RouteError::CatchAllName)
                    } else {
                        node.taken_by(method)
                    }
                },
                None => {
                    if whole {
                        None
                    } else {
                        Some(RouteError::CatchAllName)
                    }
                },
            }
        } else if c == ':' && !in_static_token {
            let name = token_name(path);
            let list: Vec<String> = with_name(copy_names(wildcards), name);
            let rest = skip_chars(path, count_segment(path));
            match &self.wildcard_child {
                Some(node) => node.refusal(rest, &Some(list), false, method),
                None => {
                    let node: Node<V> = Node::blank(name.to_owned());
                    node.refusal(rest, &Some(list), false, method)
                },
            }
        } else {
            let skipped: usize = count_escape(path, in_static_token);
            let token = leading_token(path, in_static_token);
            proof {
                lemma_static_token(path@, in_static_token);
            }
            let t0: char = token.get_char(0);
            match find_char(&self.static_indices, t0) {
                Some(i) => {
                    proof {
                        lemma_child_prefix(self.tree(), token@);
                        self.lemma_child(i as int);
                        lemma_common(self.static_child@[i as int].path@, token@);
                    }
                    let child = &self.static_child[i];
                    let shared: usize = count_common(child.path.as_str(), token);
                    let rest = skip_chars(path, skipped + shared);
                    if shared == child.path.as_str().unicode_len() {
                        child.refusal(rest, wildcards, t0 != '/', method)
                    } else {
                        let node: Node<V> = Node::blank(String::new());
                        proof {
                            let cut = child.path@;
                            assert(t0 != '/');
                            if rest@.len() > 0 {
                                if shared < token@.len() {
                                    assert(rest@[0] == token@[shared as int]);
                                } else {
                                    assert(rest@[0] == '/') by {
                                        assert(skipped + shared == segment_len(path@));
                                    }
                                    assert(cut.contains(cut[shared as int]));
                                }
                            }
                            lemma_rejection_at_cut(
                                child.tree(),
                                shared as nat,
                                rest@,
                                names,
                                method@,
                                node.tree().path,
                            );
                        }
                        node.refusal(rest, wildcards, true, method)
                    }
                },
                None => {
                    let rest = skip_chars(path, skipped + token.unicode_len());
                    let child: Node<V> = Node::blank(token.to_owned());
                    child.refusal(rest, wildcards, t0 != '/', method)
                },
            }
        }
    }

    /// Why this node cannot take a value for the method.
    fn taken_by(&self, method: &Method) -> (r: Option<RouteError>)
        ensures
            r == taken(self.tree().leaf, method@),
    {
        if self.leaf_handler.contains_key(method) && (!method.same(&Method::HEAD)
            || !self.implicit_head) {
            Some(RouteError::AlreadyHandled)
        } else {
            None
        }
    }

    /// Registers a value for a method and a path pattern.
    pub fn insert<'a>(&mut self, config: HandlerConfig<'a, V>)
        requires
            old(self).tree().wf(),
            refused(old(self).tree(), config.path@, config.method@) is None,
        ensures
            final(self).tree() == entered(old(self).tree(), config.path@, config.registration()),
            final(self).tree().wf(),
    {
        let handler = Handler {
            method: config.method,
            value: Arc::new(config.value),
            implicit_head: config.implicit_head,
            head_can_use_get: config.head_can_use_get,
            add_slash: config.add_slash,
        };
        self.add_path(strip_start_slash(cow_text(&config.path)), None, false, handler);
    }

    /// Registers a value for a method and a path pattern, unless the tree refuses it.
    pub fn try_insert<'a>(&mut self, config: HandlerConfig<'a, V>) -> (r: Result<(), RouteError>)
        requires
            old(self).tree().wf(),
        ensures
            match refused(old(self).tree(), config.path@, config.method@) {
                None => {
                    &&& r is Ok
                    &&& final(self).tree() == entered(
                        old(self).tree(),
                        config.path@,
                        config.registration(),
                    )
                },
                Some(e) => r == Err::<(), RouteError>(e) && final(self).tree() == old(self).tree(),
            },
            final(self).tree().wf(),
    {
        let path = strip_start_slash(cow_text(&config.path));
        match self.refusal(path, &None, false, &config.method) {
            Some(e) => Err(e),
            None => {
                self.insert(config);
                Ok(())
            },
        }
    }

    /// The match of a path that ends at this node.
    fn reached<'b>(
        &'b self,
        method: &Method,
        params: Vec<String>,
        path: Cow<'b, str>,
        pattern: Cow<'b, str>,
    ) -> (r: Match<'b, V>)
        ensures
            match r.value {
                Some(v) => value_of(self.tree().leaf.handlers, method@) == Some(*v),
                None => value_of(self.tree().leaf.handlers, method@) is None,
            },
            r.params == params,
            r.path == path,
            r.pattern == pattern,
            texts(r.param_names@) == listed(self.tree().leaf.names),
            r.implicit_head == self.tree().leaf.implicit_head,
            r.add_slash == self.tree().leaf.add_slash,
            r.is_catch_all == self.tree().leaf.is_catch_all(),
            r.leaf_handler@ == self.tree().leaf.handlers,
            r.parameters@.len() == 0,
    {
        Match {
            value: self.leaf_handler.get(method),
            params,
            path,
            pattern,
            implicit_head: self.implicit_head,
            add_slash: self.add_slash,
            is_catch_all: self.is_catch_all,
            param_names: self.leaf_names(),
            leaf_handler: &self.leaf_handler,
            parameters: Params::default(),
        }
    }

    /// The names of the wildcards on the way to this node, if it has been given any.
    pub fn leaf_wildcard_names(&self) -> (r: &Option<Vec<String>>)
        ensures
            names_view(*r) == self.tree().leaf.names,
    {
        &self.leaf_wildcard_names
    }

    /// The names of the wildcards on the way to this node; none if it has been given none.
    fn leaf_names(&self) -> (r: Vec<String>)
        ensures
            texts(r@) == listed(self.tree().leaf.names),
    {
        match &self.leaf_wildcard_names {
            Some(list) => copy_list(list),
            None => {
                let r: Vec<String> = Vec::new();
                assert(texts(r@) =~= Seq::<Seq<char>>::empty());
                r
            },
        }
    }

    /// Looks up the rest of a path below this node. The parameters are left as they stand in the
    /// path.
    #[verifier::spinoff_prover]
    #[verifier::rlimit(40)]
    pub fn internal_search<'b>(&'b self, method: &Method, path: &str) -> (r: Option<Match<'b, V>>)
        requires
            self.tree().wf(),
        ensures
            match find(self.tree(), method@, path@) {
                Some(h) => r is Some && r->0.shows(h) && r->0.parameters@.len() == 0,
                None => r is None,
            },
        decreases *self,
    {
        if path.is_empty() {
            if self.leaf_handler.is_empty() {
                return None;
            }
            let params: Vec<String> = Vec::new();
            proof {
                reveal_strlit("");
                assert(texts(params@) =~= Seq::<Seq<char>>::empty());
                assert(""@ =~= Seq::<char>::empty());
            }
            return Some(
                self.reached(method, params, Cow::Borrowed(""), Cow::Borrowed(self.path.as_str())),
            );
        }
        let mut found: Option<Match<'b, V>> = None;
        let c: char = path.get_char(0);
        match find_char(&self.static_indices, c) {
            Some(i) => {
                proof {
                    self.lemma_child(i as int);
                }
                let child = &self.static_child[i];
                let n: usize = child.path.as_str().unicode_len();
                proof {
                    lemma_common(child.path@, path@);
                }
                if count_common(child.path.as_str(), path) == n {
                    assert(child.path@ =~= path@.take(n as int));
                    found = child.internal_search(method, skip_chars(path, n));
                } else {
                    assert(!child.path@.is_prefix_of(path@)) by {
                        let k = common_len(child.path@, path@) as int;
                        if child.path@.is_prefix_of(path@) {
                            assert(child.path@[k] == path@.subrange(0, n as int)[k]);
                        }
                    }
                }
            },
            None => {},
        }
        assert(match find_static(self.tree(), method@, path@) {
            Some(h) => found is Some && found->0.shows(h) && found->0.parameters@.len() == 0,
            None => found is None,
        });
        if is_handled(&found) {
            return found;
        }
        match &self.wildcard_child {
            Some(node) => {
                let n: usize = count_segment(path);
                proof {
                    lemma_segment(path@);
                }
                if n > 0 {
                    match node.internal_search(method, skip_chars(path, n)) {
                        Some(mut below) => {
                            let ghost raw = texts(below.params@);
                            let mut params: Vec<String> = Vec::new();
                            params.push(take_chars(path, n).to_owned());
                            params.append(&mut below.params);
                            assert(texts(params@) =~= seq![path@.take(n as int)] + raw);
                            below.params = params;
                            if below.value.is_some() && below.param_names.len() == 0 {
                                below.param_names = node.leaf_names();
                            }
                            if below.value.is_some() || found.is_none() {
                                found = Some(below);
                            }
                        },
                        None => {},
                    }
                }
            },
            None => {},
        }
        assert(match better(
            find_static(self.tree(), method@, path@),
            find_wildcard(self.tree(), method@, path@),
        ) {
            Some(h) => found is Some && found->0.shows(h) && found->0.parameters@.len() == 0,
            None => found is None,
        });
        if is_handled(&found) {
            return found;
        }
        match &self.catch_all_child {
            Some(node) => {
                if node.leaf_handler.contains_key(method) || found.is_none() {
                    let mut params: Vec<String> = Vec::new();
                    params.push(path.to_owned());
                    assert(texts(params@) =~= seq![path@]);
                    return Some(
                        node.reached(
                            method,
                            params,
                            Cow::Borrowed(self.path.as_str()),
                            Cow::Owned(path.to_owned()),
                        ),
                    );
                }
            },
            None => {},
        }
        found
    }

    /// Looks up a path.
    #[verifier::spinoff_prover]
    #[verifier::rlimit(40)]
    pub fn search<'b>(&'b self, method: &Method, path: &str) -> (r: Option<Match<'b, V>>)
        requires
            self.tree().wf(),
        ensures
            match find(self.tree(), method@, without_start_slash(path@)) {
                Some(h) => {
                    &&& r is Some
                    &&& r->0.shows(decoded(h))
                    &&& r->0.parameters@ == zipped(h.names, all_decoded(h.params))
                    &&& forall|i: int|
                        0 <= i < h.params.len() ==> decodes_to(
                            h.params[i],
                            #[trigger] texts(r->0.params@)[i],
                        )
                    &&& !path@.contains('%') ==> r->0.shows(h)
                },
                None => r is None,
            },
    {
        let stripped = strip_start_slash(path);
        match self.internal_search(method, stripped) {
            Some(mut found) => {
                let ghost h = find(self.tree(), method@, stripped@)->0;
                proof {
                    if !path@.contains('%') {
                        assert forall|i: int| 0 <= i < stripped@.len() implies stripped@[i] != '%' by {
                            if stripped@ != path@ {
                                assert(path@.contains(path@[i + 1]));
                            } else {
                                assert(path@.contains(path@[i]));
                            }
                        }
                        lemma_plain_params(self.tree(), method@, stripped@, '%');
                    }
                }
                let params: Vec<String> = decode_all(&found.params);
                proof {
                    assert forall|i: int| 0 <= i < h.params.len() implies decodes_to(
                        h.params[i],
                        #[trigger] texts(params@)[i],
                    ) by {
                        assert(texts(found.params@)[i] == h.params[i]);
                    }
                    if !path@.contains('%') {
                        assert(texts(params@) =~= h.params);
                    }
                }
                found.params = params;
                if found.is_catch_all {
                    let pattern: String = decode(cow_text(&found.pattern));
                    found.pattern = Cow::Owned(pattern);
                }
                found.update_parameters();
                Some(found)
            },
            None => None,
        }
    }

    /// Writes the tree out, one line for each node.
    pub fn dump_tree(&self, prefix: &str, node_type: &str) -> (r: String)
        ensures
            r@ == listing(self.tree(), prefix@, node_type@),
        decreases *self,
    {
        let mut out: String = prefix.to_owned();
        out.append(" ");
        out.append(write_two_digits(self.priority).as_str());
        out.append(" ");
        out.append(node_type);
        out.append(self.path.as_str());
        out.append(" [");
        out.append(write_decimal(self.static_child.len()).as_str());
        out.append("] ");
        out.append(join_names(self.leaf_handler.keys().as_slice(), ",").as_str());
        out.append(" wildcards ");
        out.append(write_debug(&self.leaf_wildcard_names).as_str());
        out.append("\n");
        assert(out@ == line(self.tree(), prefix@, node_type@));
        let inner: String = join(prefix, "  ");
        let ghost first = out@;
        let mut i: usize = 0;
        assert(first + child_listings(self.tree(), 0, inner@) =~= first);
        while i < self.static_child.len()
            invariant
                i <= self.static_child@.len(),
                out@ == first + child_listings(self.tree(), i as nat, inner@),
            decreases self.static_child@.len() - i,
        {
            let ghost before = out@;
            proof {
                self.lemma_child(i as int);
            }
            out.append(self.static_child[i].dump_tree(inner.as_str(), "").as_str());
            assert(out@ =~= first + child_listings(self.tree(), (i + 1) as nat, inner@));
            i += 1;
        }
        assert(self.tree().children.len() == self.static_child@.len());
        match &self.wildcard_child {
            Some(w) => out.append(w.dump_tree(inner.as_str(), ":").as_str()),
            None => {},
        }
        match &self.catch_all_child {
            Some(c) => out.append(c.dump_tree(inner.as_str(), "*").as_str()),
            None => {},
        }
        assert(out@ =~= listing(self.tree(), prefix@, node_type@));
        out
    }

    /// Puts names in front of those of this node, if it has handlers.
    fn prefix_leaf(&mut self, wildcards: &Vec<String>)
        ensures
            final(self).tree() == (Tree {
                leaf: prefixed_leaf(old(self).tree().leaf, texts(wildcards@)),
                ..old(self).tree()
            }),
    {
        let ghost before = *self;
        if !self.leaf_handler.is_empty() {
            let mut names: Vec<String> = copy_list(wildcards);
            let mut own: Vec<String> = self.leaf_names();
            let ghost tail = texts(own@);
            names.append(&mut own);
            assert(texts(names@) =~= texts(wildcards@) + tail);
            self.leaf_wildcard_names = Some(names);
        }
        assert(self.tree().children =~= before.tree().children);
    }

    /// Puts names in front of those of the nodes with handlers, from this node down.
    fn add_wildcards_to_leafs(&mut self, wildcards: &Vec<String>)
        ensures
            final(self).tree() == prefixed(old(self).tree(), texts(wildcards@)),
        decreases *old(self),
    {
        let ghost before = *self;
        let ghost names = texts(wildcards@);
        let ghost target = prefixed(self.tree(), names);
        let mut i: usize = 0;
        while i < self.static_child.len()
            invariant
                i <= self.static_child@.len(),
                before == *old(self),
                names == texts(wildcards@),
                target == prefixed(before.tree(), names),
                self.static_child@.len() == before.static_child@.len(),
                forall|k: int|
                    0 <= k < i ==> (#[trigger] self.static_child@[k]).tree() == target.children[k],
                forall|k: int|
                    i <= k < self.static_child@.len() ==> self.static_child@[k]
                        == before.static_child@[k],
                *self == (Node { static_child: self.static_child, ..before }),
            decreases self.static_child@.len() - i,
        {
            proof {
                before.lemma_child(i as int);
            }
            self.static_child[i].add_wildcards_to_leafs(wildcards);
            assert(self.static_child@[i as int].tree() == target.children[i as int]);
            i += 1;
        }
        match &mut self.wildcard_child {
            Some(w) => {
                w.add_wildcards_to_leafs(wildcards);
                assert(w.tree() == *target.wildcard->0);
            },
            None => {},
        }
        match &mut self.catch_all_child {
            Some(c) => {
                c.prefix_leaf(wildcards);
                assert(c.tree() == *target.catch_all->0);
            },
            None => {},
        }
        assert(self.tree().children =~= target.children);
        self.prefix_leaf(wildcards);
    }

    /// Takes the handlers of another node of the same route, with what goes with them.
    fn join_leaf(&mut self, over: &Node<V>)
        ensures
            final(self).tree() == (Tree {
                leaf: (Leaf {
                    catch_all: old(self).tree().leaf.catch_all,
                    ..joined_leaf(old(self).tree().leaf, over.tree().leaf)
                }),
                ..old(self).tree()
            }),
    {
        let ghost before = self.tree();
        if over.leaf_handler.contains_key(&Method::HEAD) {
            self.implicit_head = over.implicit_head;
        }
        self.add_slash = self.add_slash || over.add_slash;
        if over.leaf_wildcard_names.is_some() {
            self.leaf_wildcard_names = copy_names(&over.leaf_wildcard_names);
        }
        self.leaf_handler.merge(&over.leaf_handler);
        assert(self.tree().children =~= before.children);
    }

    /// Makes this node and the static children of another one of the same route one.
    #[verifier::spinoff_prover]
    #[verifier::rlimit(40)]
    fn overlay_children(
        &mut self,
        indices: Vec<char>,
        children: Vec<Node<V>>,
        Ghost(b): Ghost<Tree<V>>,
    )
        requires
            old(self).tree().wf(),
            b.wf(),
            weight(old(self).tree()) + weight(b) <= usize::MAX,
            indices@ == b.indices,
            children@.len() == b.children.len(),
            forall|i: int| 0 <= i < children@.len() ==> (#[trigger] children@[i]).tree()
                == b.children[i],
        ensures
            final(self).tree() == merge_children(old(self).tree(), b, b.children.len()),
        decreases extent(old(self).tree()) + extent(b), 0nat,
    {
        let ghost a = self.tree();
        let ghost source = children@;
        let mut children = children;
        let mut i: usize = 0;
        while i < children.len()
            invariant
                i <= children@.len(),
                a == old(self).tree(),
                a.wf(),
                b.wf(),
                weight(a) + weight(b) <= usize::MAX,
                indices@ == b.indices,
                children@.len() == b.children.len(),
                source.len() == b.children.len(),
                forall|k: int| 0 <= k < source.len() ==> (#[trigger] source[k]).tree()
                    == b.children[k],
                forall|k: int| i <= k < children@.len() ==> children@[k] == source[k],
                self.tree() == merge_children(a, b, i as nat),
            decreases children@.len() - i,
        {
            let ghost before = *self;
            let ghost m = self.tree();
            proof {
                lemma_merge_children(a, b, i as nat);
                lemma_total_part(b.children, i as int);
            }
            let c: char = indices[i];
            let mut child: Node<V> = Node::blank(String::new());
            std::mem::swap(&mut child, &mut children[i]);
            let ghost y = b.children[i as int];
            assert(child == source[i as int]);
            assert(child.tree() == y);
            assert(child_at(m, c) == child_at(a, c)) by {
                lemma_not_before(b.indices, i as int);
            }
            match find_char(&self.static_indices, c) {
                Some(k) => {
                    let ghost x = m.children[k as int];
                    let ghost at = a.indices.index_of(c);
                    proof {
                        self.lemma_child(k as int);
                        child.lemma_fields();
                        assert(child_at(m, c) == Some(x));
                        assert(a.indices.contains(c));
                        assert(a.children[at] == x);
                        lemma_meeting(x, y, c);
                        lemma_extent_meeting(a, b, at, i as int);
                        lemma_total_update(m.children, k as int, x);
                    }
                    let held: usize = self.static_child[k].weight();
                    let shared: usize = self.split_common_prefix(k, child.path.as_str());
                    let ghost cut = *self;
                    proof {
                        lemma_common(x.path, y.path);
                        assert(self.tree().children.len() == self.static_child@.len());
                        self.lemma_child(k as int);
                        lemma_merge(split(x, shared as nat), split(y, shared as nat));
                    }
                    child.split_at(shared);
                    self.static_child[k].overlay(child);
                    proof {
                        assert(self.static_child@[k as int].tree() == meeting(x, y));
                        lemma_one_child_changed(before, cut, *self, k as int, split(x, shared as nat));
                    }
                    self.settle_child(k, held, Ghost(m), Ghost(meeting(x, y)));
                },
                None => {
                    assert(!a.indices.contains(c)) by {
                        if a.indices.contains(c) {
                            assert(child_at(m, c) is Some);
                        }
                    }
                    self.add_child(c, child);
                },
            }
            i += 1;
        }
    }

    /// Makes this node and another one of the same route one. The handlers of the other one go
    /// before those that are here.
    #[verifier::spinoff_prover]
    #[verifier::rlimit(40)]
    fn overlay(&mut self, over: Node<V>)
        requires
            old(self).tree().wf(),
            over.tree().wf(),
            weight(old(self).tree()) + weight(over.tree()) <= usize::MAX,
        ensures
            final(self).tree() == merge(old(self).tree(), over.tree()),
        decreases extent(old(self).tree()) + extent(over.tree()), 1nat,
    {
        let ghost a = self.tree();
        let ghost b = over.tree();
        let mut over = over;
        let mut indices: Vec<char> = Vec::new();
        let mut children: Vec<Node<V>> = Vec::new();
        proof {
            assert(b.children.len() == over.static_child@.len());
            assert forall|i: int| 0 <= i < over.static_child@.len() implies (
            #[trigger] over.static_child@[i]).tree() == b.children[i] by {
                over.lemma_child(i);
            }
            lemma_merge(a, b);
            lemma_merge_children(a, b, b.children.len());
            assert(b.children.take(b.children.len() as int) =~= b.children);
            match (a.wildcard, b.wildcard) {
                (Some(x), Some(y)) => {
                    lemma_merge(*x, *y);
                },
                _ => {},
            }
        }
        std::mem::swap(&mut indices, &mut over.static_indices);
        std::mem::swap(&mut children, &mut over.static_child);
        self.overlay_children(indices, children, Ghost(b));
        let ghost m = self.tree();
        self.join_leaf(&over);
        let ghost joined = self.tree();
        let mut wildcard: Option<Box<Node<V>>> = None;
        std::mem::swap(&mut wildcard, &mut over.wildcard_child);
        self.overlay_wildcard(wildcard);
        let mut end: Option<Box<Node<V>>> = None;
        std::mem::swap(&mut end, &mut over.catch_all_child);
        self.overlay_catch_all(end);
        assert(self.tree() == merge(a, b));
    }

    /// Makes the wildcard of this node and another one of the same route one.
    fn overlay_wildcard(&mut self, over: Option<Box<Node<V>>>)
        requires
            old(self).tree().wildcard matches Some(x) ==> x.wf(),
            subtree(over) matches Some(y) ==> y.wf(),
            weight_of(old(self).tree().wildcard) <= old(self).tree().priority,
            old(self).tree().priority + weight_of(subtree(over)) <= usize::MAX,
        ensures
            ({
                let t = old(self).tree();
                let joined = match (t.wildcard, subtree(over)) {
                    (Some(x), Some(y)) => Some(Box::new(merge(*x, *y))),
                    (None, y) => y,
                    (x, None) => x,
                };
                final(self).tree() == (Tree {
                    wildcard: joined,
                    priority: (t.priority - weight_of(t.wildcard) + weight_of(joined)) as nat,
                    ..t
                })
            }),
        decreases extent_of(old(self).tree().wildcard) + extent_of(subtree(over)), 0nat,
    {
        let ghost before = self.tree();
        match over {
            Some(node) => {
                let held: usize = match &self.wildcard_child {
                    Some(x) => x.weight(),
                    None => 0,
                };
                let node: Node<V> = *node;
                let mut after: usize = 0;
                if self.wildcard_child.is_none() {
                    after = node.weight();
                    self.wildcard_child = Some(Box::new(node));
                } else {
                    match &mut self.wildcard_child {
                        Some(x) => {
                            proof {
                                lemma_merge(x.tree(), node.tree());
                            }
                            x.overlay(node);
                            after = x.weight();
                        },
                        None => {},
                    }
                }
                self.priority = self.priority - held + after;
            },
            None => {},
        }
        assert(self.tree().children =~= before.children);
    }

    /// Makes the catch-all of this node and another one of the same route one.
    fn overlay_catch_all(&mut self, over: Option<Box<Node<V>>>)
        requires
            old(self).tree().catch_all matches Some(x) ==> is_end(*x),
            subtree(over) matches Some(y) ==> is_end(*y),
            weight_of(old(self).tree().catch_all) <= old(self).tree().priority,
            old(self).tree().priority + weight_of(subtree(over)) <= usize::MAX,
        ensures
            ({
                let t = old(self).tree();
                let joined = joined_end(t.catch_all, subtree(over));
                final(self).tree() == (Tree {
                    catch_all: joined,
                    priority: (t.priority - weight_of(t.catch_all) + weight_of(joined)) as nat,
                    ..t
                })
            }),
    {
        let ghost before = self.tree();
        match over {
            Some(node) => {
                let held: usize = match &self.catch_all_child {
                    Some(x) => x.weight(),
                    None => 0,
                };
                let node: Node<V> = *node;
                let mut after: usize = 0;
                if self.catch_all_child.is_none() {
                    after = node.weight();
                    self.catch_all_child = Some(Box::new(node));
                } else {
                    match &mut self.catch_all_child {
                        Some(x) => {
                            let ghost was = x.tree();
                            proof {
                                lemma_merged_distinct(was.leaf.handlers, node.tree().leaf.handlers);
                            }
                            x.join_leaf(&node);
                            x.path = node.path;
                            after = x.weight();
                            assert(x.tree().children =~= node.tree().children);
                            assert(x.tree().indices =~= node.tree().indices);
                        },
                        None => {},
                    }
                }
                self.priority = self.priority - held + after;
            },
            None => {},
        }
        assert(self.tree().children =~= before.children);
    }

    /// Attaches another tree behind a slash.
    #[verifier::spinoff_prover]
    #[verifier::rlimit(40)]
    fn attach(&mut self, wildcards: Option<Vec<String>>, node: Node<V>)
        requires
            old(self).tree().wf(),
            is_root(node.tree()),
            old(self).tree().priority + weight(node.tree()) <= usize::MAX,
        ensures
            final(self).tree() == attached(old(self).tree(), names_view(wildcards), node.tree()),
    {
        let ghost before = *self;
        let ghost t = self.tree();
        let ghost names = names_view(wildcards);
        let ghost sub = node.tree();
        let mut node = node;
        let unnamed = self.leaf_wildcard_names.is_none() && node.leaf_wildcard_names.is_none();
        proof {
            lemma_placed(names, sub);
        }
        if node.leaf_handler.contains_key(&Method::HEAD) {
            self.implicit_head = node.implicit_head;
        }
        self.leaf_handler.merge(&node.leaf_handler);
        node.leaf_handler = MethodMap::new();
        assert(node.tree().children =~= sub.children);
        assert(node.tree() == with_handlers(sub, Seq::empty()));
        match &wildcards {
            Some(list) => {
                node.add_wildcards_to_leafs(list);
            },
            None => {},
        }
        if unnamed {
            self.leaf_wildcard_names = wildcards;
        }
        let ghost u = Tree { leaf: attached_leaf(t, names, sub), ..t };
        let ghost p = placed(names, sub);
        proof {
            assert(node.tree() == p);
            assert(self.tree().children =~= t.children);
            assert(self.tree() == u);
            lemma_merged_distinct(t.leaf.handlers, sub.leaf.handlers);
            assert(u.children == t.children);
            assert(u.shaped());
            assert(u.wf());
        }
        match find_char(&self.static_indices, '/') {
            Some(at) => {
                let ghost named = *self;
                let ghost previous = u.children[at as int];
                proof {
                    self.lemma_child(at as int);
                    node.lemma_fields();
                    lemma_meeting(previous, p, '/');
                    lemma_total_update(u.children, at as int, previous);
                }
                let held: usize = self.static_child[at].weight();
                let shared: usize = self.split_common_prefix(at, node.path.as_str());
                let ghost cut = *self;
                proof {
                    lemma_common(previous.path, p.path);
                    assert(self.tree().children.len() == self.static_child@.len());
                    self.lemma_child(at as int);
                    lemma_merge(split(previous, shared as nat), split(p, shared as nat));
                }
                node.split_at(shared);
                self.static_child[at].overlay(node);
                proof {
                    assert(self.static_child@[at as int].tree() == meeting(previous, p));
                    lemma_one_child_changed(
                        named,
                        cut,
                        *self,
                        at as int,
                        split(previous, shared as nat),
                    );
                }
                self.settle_child(at, held, Ghost(u), Ghost(meeting(previous, p)));
            },
            None => {
                self.add_child('/', node);
            },
        }
    }

    /// Attaches another tree below a path that goes on from this node. The names are those of the
    /// wildcards on the way to it.
    fn internal_add_node(
        &mut self,
        path: &str,
        wildcards: Option<Vec<String>>,
        in_static_token: bool,
        node: Node<V>,
    )
        requires
            old(self).tree().wf(),
            is_root(node.tree()),
            graft_rejection(
                old(self).tree(),
                path@,
                names_view(wildcards),
                in_static_token,
                node.tree().leaf.names,
                weight(node.tree()),
            ) is None,
        ensures
            final(self).tree() == grafted(
                old(self).tree(),
                path@,
                names_view(wildcards),
                in_static_token,
                node.tree(),
            ),
            final(self).tree().wf(),
        decreases path@.len(), *old(self), 1nat,
    {
        proof {
            lemma_grafted_wf(
                self.tree(),
                path@,
                names_view(wildcards),
                in_static_token,
                node.tree(),
            );
        }
        if path.is_empty() {
            self.attach(wildcards, node);
            return;
        }
        if path.get_char(0) == ':' && !in_static_token {
            self.add_node_at_wildcard(path, wildcards, node);
        } else {
            self.add_node_at_static(path, wildcards, in_static_token, node);
        }
    }

    /// Attaches another tree below a path that begins with a wildcard.
    fn add_node_at_wildcard(
        &mut self,
        path: &str,
        wildcards: Option<Vec<String>>,
        node: Node<V>,
    )
        requires
            old(self).tree().wf(),
            is_root(node.tree()),
            path@.len() > 0,
            path@[0] == ':',
            graft_rejection(
                old(self).tree(),
                path@,
                names_view(wildcards),
                false,
                node.tree().leaf.names,
                weight(node.tree()),
            ) is None,
        ensures
            final(self).tree() == grafted(
                old(self).tree(),
                path@,
                names_view(wildcards),
                false,
                node.tree(),
            ),
        decreases path@.len(), *old(self), 0nat,
    {
        let ghost before = *self;
        let ghost names = names_view(wildcards);
        let ghost sub = node.tree();
        proof {
            lemma_segment(path@);
        }
        let name = token_name(path);
        let held: usize = match &self.wildcard_child {
            Some(child) => child.weight(),
            None => 0,
        };
        proof {
            lemma_blank_wf::<V>(name@);
        }
        if self.wildcard_child.is_none() {
            self.wildcard_child = Some(Box::new(Node::blank(name.to_owned())));
        }
        let list: Vec<String> = with_name(wildcards, name);
        let rest = skip_chars(path, count_segment(path));
        let mut after: usize = 0;
        match &mut self.wildcard_child {
            Some(child) => {
                assert(child.tree() == wildcard_of(before.tree(), name@));
                proof {
                    lemma_grafted_wf(child.tree(), rest@, names_view(Some(list)), false, sub);
                }
                child.internal_add_node(rest, Some(list), false, node);
                after = child.weight();
            },
            None => {},
        }
        self.priority = self.priority - held + after;
        assert(self.tree().children =~= before.tree().children);
        assert(self.tree() == grafted(before.tree(), path@, names, false, sub));
    }

    /// Attaches another tree below a path that begins with static text.
    #[verifier::spinoff_prover]
    #[verifier::rlimit(40)]
    fn add_node_at_static(
        &mut self,
        path: &str,
        wildcards: Option<Vec<String>>,
        in_static_token: bool,
        node: Node<V>,
    )
        requires
            old(self).tree().wf(),
            is_root(node.tree()),
            path@.len() > 0,
            in_static_token || path@[0] != ':',
            graft_rejection(
                old(self).tree(),
                path@,
                names_view(wildcards),
                in_static_token,
                node.tree().leaf.names,
                weight(node.tree()),
            ) is None,
        ensures
            final(self).tree() == grafted(
                old(self).tree(),
                path@,
                names_view(wildcards),
                in_static_token,
                node.tree(),
            ),
        decreases path@.len(), *old(self), 0nat,
    {
        let ghost before = *self;
        let ghost names = names_view(wildcards);
        let ghost sub = node.tree();
        let len: usize = path.unicode_len();
        let skipped: usize = count_escape(path, in_static_token);
        let token = leading_token(path, in_static_token);
        proof {
            lemma_static_token(path@, in_static_token);
        }
        let t0: char = token.get_char(0);
        match find_char(&self.static_indices, t0) {
            Some(i) => {
                proof {
                    lemma_child_prefix(self.tree(), token@);
                    self.lemma_child(i as int);
                }
                let held: usize = self.static_child[i].weight();
                let shared: usize = self.split_common_prefix(i, token);
                assert(skipped + shared <= len);
                let rest = skip_chars(path, skipped + shared);
                let ghost cut = *self;
                proof {
                    assert(self.tree().children.len() == self.static_child@.len());
                    self.lemma_child(i as int);
                    lemma_grafted_wf(self.tree().children[i as int], rest@, names, t0 != '/', sub);
                }
                self.static_child[i].internal_add_node(rest, wildcards, t0 != '/', node);
                let ghost below = self.static_child@[i as int].tree();
                proof {
                    let child = before.tree().children[i as int];
                    assert(below == grafted(split(child, shared as nat), rest@, names, t0 != '/', sub));
                    lemma_one_child_changed(before, cut, *self, i as int, split(child, shared as nat));
                }
                self.settle_child(i, held, Ghost(before.tree()), Ghost(below));
            },
            None => {
                let rest = skip_chars(path, skipped + token.unicode_len());
                let mut child: Node<V> = Node::blank(token.to_owned());
                proof {
                    lemma_blank_wf::<V>(token@);
                    lemma_grafted_wf(child.tree(), rest@, names, t0 != '/', sub);
                }
                child.internal_add_node(rest, wildcards, t0 != '/', node);
                self.add_child(t0, child);
            },
        }
    }

    /// Why another tree cannot be attached below a path that goes on from this node.
    #[verifier::spinoff_prover]
    #[verifier::rlimit(40)]
    fn graft_refusal(
        &self,
        path: &str,
        wildcards: &Option<Vec<String>>,
        in_static_token: bool,
        sub_names: &Option<Vec<String>>,
        values: usize,
    ) -> (r: Option<RouteError>)
        requires
            self.tree().wf(),
        ensures
            r == graft_rejection(
                self.tree(),
                path@,
                names_view(*wildcards),
                in_static_token,
                names_view(*sub_names),
                values as nat,
            ),
        decreases path@.len(), *self,
    {
        if self.priority > usize::MAX - values {
            return Some(RouteError::TooManyRoutes);
        }
        if path.is_empty() {
            return match clashing(&self.leaf_wildcard_names, wildcards) {
                Some(e) => Some(e),
                None => match find_char(&self.static_indices, '/') {
                    Some(_) => None,
                    None => clashing(sub_names, wildcards),
                },
            };
        }
        let c: char = path.get_char(0);
        let len: usize = path.unicode_len();
        proof {
            lemma_segment(path@);
        }
        if c == '*' && !in_static_token {
            Some(RouteError::CatchAllGroup)
        } else if c == ':' && !in_static_token {
            let name = token_name(path);
            let list: Vec<String> = with_name(copy_names(wildcards), name);
            let rest = skip_chars(path, count_segment(path));
            match &self.wildcard_child {
                Some(node) => node.graft_refusal(rest, &Some(list), false, sub_names, values),
                None => {
                    let node: Node<V> = Node::blank(name.to_owned());
                    node.graft_refusal(rest, &Some(list), false, sub_names, values)
                },
            }
        } else {
            let skipped: usize = count_escape(path, in_static_token);
            let token = leading_token(path, in_static_token);
            proof {
                lemma_static_token(path@, in_static_token);
            }
            let t0: char = token.get_char(0);
            match find_char(&self.static_indices, t0) {
                Some(i) => {
                    proof {
                        lemma_child_prefix(self.tree(), token@);
                        self.lemma_child(i as int);
                        lemma_common(self.static_child@[i as int].path@, token@);
                    }
                    let child = &self.static_child[i];
                    let shared: usize = count_common(child.path.as_str(), token);
                    let rest = skip_chars(path, skipped + shared);
                    if shared == child.path.as_str().unicode_len() {
                        child.graft_refusal(rest, wildcards, t0 != '/', sub_names, values)
                    } else {
                        let node: Node<V> = Node::blank(String::new());
                        proof {
                            let cut = child.path@;
                            assert(t0 != '/');
                            if rest@.len() > 0 {
                                if shared < token@.len() {
                                    assert(rest@[0] == token@[shared as int]);
                                } else {
                                    assert(rest@[0] == '/') by {
                                        assert(skipped + shared == segment_len(path@));
                                    }
                                    assert(cut.contains(cut[shared as int]));
                                }
                            }
                            lemma_graft_rejection_at_cut(
                                child.tree(),
                                shared as nat,
                                rest@,
                                names_view(*wildcards),
                                names_view(*sub_names),
                                values as nat,
                                node.tree().path,
                            );
                        }
                        node.graft_refusal(rest, wildcards, true, sub_names, values)
                    }
                },
                None => {
                    let rest = skip_chars(path, skipped + token.unicode_len());
                    let child: Node<V> = Node::blank(token.to_owned());
                    child.graft_refusal(rest, wildcards, t0 != '/', sub_names, values)
                },
            }
        }
    }

    /// Attaches another tree below a path.
    pub fn extend<'a>(&mut self, path: Cow<'a, str>, node: Node<V>)
        requires
            old(self).tree().wf(),
            is_root(node.tree()),
            extension_refused(old(self).tree(), path@, node.tree()) is None,
        ensures
            final(self).tree() == extended(old(self).tree(), path@, node.tree()),
            final(self).tree().wf(),
    {
        self.internal_add_node(strip_start_slash(cow_text(&path)), None, false, node);
    }

    /// Attaches another tree below a path, unless the tree refuses it.
    pub fn try_extend<'a>(&mut self, path: Cow<'a, str>, node: Node<V>) -> (r: Result<
        (),
        RouteError,
    >)
        requires
            old(self).tree().wf(),
            is_root(node.tree()),
        ensures
            match extension_refused(old(self).tree(), path@, node.tree()) {
                None => {
                    &&& r is Ok
                    &&& final(self).tree() == extended(old(self).tree(), path@, node.tree())
                },
                Some(e) => r == Err::<(), RouteError>(e) && final(self).tree() == old(self).tree(),
            },
            final(self).tree().wf(),
    {
        let stripped = strip_start_slash(cow_text(&path));
        if node.priority > usize::MAX - node.leaf_handler.len() {
            return Err(RouteError::TooManyRoutes);
        }
        let values: usize = node.weight();
        match self.graft_refusal(stripped, &None, false, &node.leaf_wildcard_names, values) {
            Some(e) => Err(e),
            None => {
                self.extend(path, node);
                Ok(())
            },
        }
    }
}

} // verus!
