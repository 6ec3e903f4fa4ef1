//! What a tree of routes is: the pattern language, the tree as a mathematical value, how a
//! pattern is entered into it and how a path is looked up in it.

use vstd::prelude::*;

use crate::method::{distinct, put, value_of};
use crate::text::{common_len, lemma_common, lemma_segment, segment_len, without_start_slash};

verus! {

/// Why a route or a group of routes is refused.
#[derive(Debug, Clone, Copy, PartialEq, Eq, Structural)]
pub enum RouteError {
    /// The pattern already has a handler for the method.
    AlreadyHandled,
    /// The pattern ends where another one ends that has a different number of wildcards.
    WildcardCount,
    /// The pattern ends where another one ends that names its wildcards differently.
    WildcardNames,
    /// The catch-all has another name than the one that is there, or a slash follows it.
    CatchAllName,
    /// A group of routes cannot be attached at a catch-all.
    CatchAllGroup,
    /// A node has as many values in its sub nodes as it can count.
    TooManyRoutes,
    /// The path is empty.
    EmptyPath,
    /// The path does not start with a slash.
    NoLeadingSlash,
    /// The pattern cannot be read as a URI.
    InvalidUri,
}

/// One step of a route: a character, one path segment, or the rest of the path.
pub enum Symbol {
    Literal(char),
    Wildcard,
    CatchAll,
}

/// The step that matches one character.
pub open spec fn literal(c: char) -> Symbol {
    Symbol::Literal(c)
}

/// The route that consists of the characters of a text.
pub open spec fn literals(text: Seq<char>) -> Seq<Symbol> {
    text.map_values(|c: char| literal(c))
}

/// What a tree holds for one route.
pub struct Leaf<V> {
    /// The handlers, by method.
    pub handlers: Seq<(Seq<char>, V)>,
    /// The names of the wildcards on the way, the catch-all's included.
    pub names: Option<Seq<Seq<char>>>,
    /// Whether the pattern was registered with a trailing slash.
    pub add_slash: bool,
    /// Whether a `HEAD` handler, if any, may be replaced.
    pub implicit_head: bool,
    /// The name of the catch-all, if the route ends in one.
    pub catch_all: Option<Seq<char>>,
}

impl<V> Leaf<V> {
    /// Whether the route ends in a catch-all.
    pub open spec fn is_catch_all(self) -> bool {
        self.catch_all is Some
    }
}

/// What a tree holds for a route that nothing was registered for.
pub open spec fn blank_leaf<V>() -> Leaf<V> {
    Leaf {
        handlers: Seq::empty(),
        names: None,
        add_slash: false,
        implicit_head: true,
        catch_all: None,
    }
}

/// A tree of routes.
pub struct Tree<V> {
    /// The characters that lead from the parent to here; of a wildcard or a catch-all, its name.
    pub path: Seq<char>,
    /// The number of values registered in sub nodes.
    pub priority: nat,
    /// The first character of each static child.
    pub indices: Seq<char>,
    /// The static children.
    pub children: Seq<Tree<V>>,
    pub wildcard: Option<Box<Tree<V>>>,
    pub catch_all: Option<Box<Tree<V>>>,
    pub leaf: Leaf<V>,
}

/// A tree that holds nothing.
pub open spec fn blank_tree<V>(path: Seq<char>) -> Tree<V> {
    Tree {
        path,
        priority: 0,
        indices: Seq::empty(),
        children: Seq::empty(),
        wildcard: None,
        catch_all: None,
        leaf: blank_leaf(),
    }
}

/// A catch-all that holds no handler yet.
pub open spec fn blank_catch_all<V>(name: Seq<char>) -> Tree<V> {
    Tree { leaf: Leaf { catch_all: Some(name), ..blank_leaf() }, ..blank_tree(name) }
}

/// The path of a static child begins with its index, and is a slash or free of slashes. That of a
/// tree attached behind a slash may be empty.
pub open spec fn fragment_fits(index: char, path: Seq<char>) -> bool {
    &&& path.len() == 0 ==> index == '/'
    &&& path.len() > 0 ==> path[0] == index
    &&& path == seq!['/'] || !path.contains('/')
}

/// The number of values at a node and in its sub nodes, given its priority.
pub open spec fn weight<V>(t: Tree<V>) -> nat {
    t.leaf.handlers.len() + t.priority
}

/// The number of values at some nodes and in their sub nodes.
pub open spec fn total<V>(nodes: Seq<Tree<V>>) -> nat
    decreases nodes.len(),
{
    if nodes.len() == 0 {
        0
    } else {
        total(nodes.drop_last()) + weight(nodes.last())
    }
}

/// The number of values at a node, if there is one, and in its sub nodes.
pub open spec fn weight_of<V>(node: Option<Box<Tree<V>>>) -> nat {
    match node {
        Some(t) => weight(*t),
        None => 0,
    }
}

/// The number of values in sub nodes, given the priorities of the children.
pub open spec fn count_below<V>(t: Tree<V>) -> nat {
    total(t.children) + weight_of(t.wildcard) + weight_of(t.catch_all)
}

/// The tree with the priority of its root counted anew.
pub open spec fn recounted<V>(t: Tree<V>) -> Tree<V> {
    Tree { priority: count_below(t), ..t }
}

/// The number of values registered in the first `n` static children and in their sub nodes.
pub open spec fn values_in<V>(t: Tree<V>, n: nat) -> nat
    decreases t, n,
{
    if 0 < n <= t.children.len() {
        values_in(t, (n - 1) as nat) + t.children[n - 1].leaf.handlers.len() + values_below(
            t.children[n - 1],
        )
    } else {
        0
    }
}

/// The number of values registered in sub nodes: children, grandchildren, and so on.
pub open spec fn values_below<V>(t: Tree<V>) -> nat
    decreases t, t.children.len() + 1,
{
    values_in(t, t.children.len()) + (match t.wildcard {
        Some(w) => w.leaf.handlers.len() + values_below(*w),
        None => 0,
    }) + (match t.catch_all {
        Some(c) => c.leaf.handlers.len() + values_below(*c),
        None => 0,
    })
}

/// The priority of every node is the number of values registered in its sub nodes.
pub open spec fn counts_values<V>(t: Tree<V>) -> bool
    decreases t,
{
    &&& t.priority == values_below(t)
    &&& forall|i: int|
        #![trigger t.children[i]]
        0 <= i < t.children.len() ==> counts_values(t.children[i])
    &&& t.wildcard matches Some(w) ==> counts_values(*w)
    &&& t.catch_all matches Some(c) ==> counts_values(*c)
}

/// A catch-all is marked with its name, has handlers, and has nothing below it.
pub open spec fn is_end<V>(c: Tree<V>) -> bool {
    &&& c.leaf.catch_all == Some(c.path)
    &&& c.leaf.handlers.len() > 0
    &&& distinct(c.leaf.handlers)
    &&& c.priority == 0
    &&& c.indices.len() == 0
    &&& c.children.len() == 0
    &&& c.wildcard is None
    &&& c.catch_all is None
}

impl<V> Tree<V> {
    /// No two static children begin with the same character, and each fits its index. Only
    /// catch-alls are marked as such. No method has two handlers.
    pub open spec fn shaped(self) -> bool
        decreases self, 0nat,
    {
        &&& !self.leaf.is_catch_all()
        &&& distinct(self.leaf.handlers)
        &&& self.catch_all matches Some(c) ==> is_end(*c)
        &&& self.indices.len() == self.children.len()
        &&& self.indices.no_duplicates()
        &&& forall|i: int|
            #![trigger self.children[i]]
            0 <= i < self.children.len() ==> fragment_fits(self.indices[i], self.children[i].path)
                && self.children[i].wf()
        &&& self.wildcard matches Some(w) ==> w.wf()
    }

    /// Besides, the priority is counted right.
    pub open spec fn wf(self) -> bool
        decreases self, 1nat,
    {
        &&& self.shaped()
        &&& self.priority == count_below(self)
    }

    /// Besides, every static child consumes a character.
    pub open spec fn strict(self) -> bool
        decreases self,
    {
        &&& self.wf()
        &&& forall|i: int|
            #![trigger self.children[i]]
            0 <= i < self.children.len() ==> self.children[i].path.len() > 0
                && self.children[i].strict()
        &&& self.wildcard matches Some(w) ==> w.strict()
    }
}

/// The listed names, none if there is no list.
pub open spec fn listed(names: Option<Seq<Seq<char>>>) -> Seq<Seq<char>> {
    match names {
        Some(list) => list,
        None => Seq::empty(),
    }
}

/// What a lookup finds.
pub struct Hit<V> {
    /// The route by which the path was matched.
    pub route: Seq<Symbol>,
    /// What the tree holds for that route.
    pub leaf: Leaf<V>,
    /// The handler for the method, if the route has one.
    pub value: Option<V>,
    /// What the wildcards and the catch-all matched, as it stands in the path.
    pub params: Seq<Seq<char>>,
    /// The names of the parameters.
    pub names: Seq<Seq<char>>,
    /// Nothing; for a catch-all, the path of the node that has the catch-all.
    pub path: Seq<char>,
    /// The path of the node that was reached; for a catch-all, what it matched.
    pub pattern: Seq<char>,
}

/// Whether a lookup found a handler.
pub open spec fn has_value<V>(hit: Option<Hit<V>>) -> bool {
    hit matches Some(h) && h.value is Some
}

/// What is found where the path ends at a node.
pub open spec fn find_here<V>(t: Tree<V>, method: Seq<char>) -> Option<Hit<V>> {
    if t.leaf.handlers.len() == 0 {
        None
    } else {
        Some(
            Hit {
                route: Seq::empty(),
                leaf: t.leaf,
                value: value_of(t.leaf.handlers, method),
                params: Seq::empty(),
                names: listed(t.leaf.names),
                path: Seq::empty(),
                pattern: t.path,
            },
        )
    }
}

/// What is found below the static child that begins with the first character of the path.
pub open spec fn find_static<V>(t: Tree<V>, method: Seq<char>, path: Seq<char>) -> Option<Hit<V>>
    decreases t, 0nat,
{
    if t.indices.contains(path[0]) && t.indices.index_of(path[0]) < t.children.len() {
        let child = t.children[t.indices.index_of(path[0])];
        if child.path.is_prefix_of(path) {
            match find(child, method, path.skip(child.path.len() as int)) {
                Some(h) => Some(Hit { route: literals(child.path) + h.route, ..h }),
                None => None,
            }
        } else {
            None
        }
    } else {
        None
    }
}

/// What is found below the wildcard, which takes the first segment of the path.
pub open spec fn find_wildcard<V>(t: Tree<V>, method: Seq<char>, path: Seq<char>) -> Option<Hit<V>>
    decreases t, 0nat,
{
    let n = segment_len(path) as int;
    match t.wildcard {
        Some(w) => if n > 0 {
            match find(*w, method, path.skip(n)) {
                Some(h) => Some(
                    Hit {
                        route: seq![Symbol::Wildcard] + h.route,
                        params: seq![path.take(n)] + h.params,
                        names: if h.value is Some && h.names.len() == 0 {
                            listed(w.leaf.names)
                        } else {
                            h.names
                        },
                        ..h
                    },
                ),
                None => None,
            }
        } else {
            None
        },
        None => None,
    }
}

/// What the catch-all finds, which takes the whole path.
pub open spec fn find_catch_all<V>(t: Tree<V>, method: Seq<char>, path: Seq<char>) -> Option<
    Hit<V>,
> {
    match t.catch_all {
        Some(c) => Some(
            Hit {
                route: seq![Symbol::CatchAll],
                leaf: c.leaf,
                value: value_of(c.leaf.handlers, method),
                params: seq![path],
                names: listed(c.leaf.names),
                path: t.path,
                pattern: path,
            },
        ),
        None => None,
    }
}

/// Of two finds the first, unless only the second has a handler or is a find at all.
pub open spec fn better<V>(first: Option<Hit<V>>, second: Option<Hit<V>>) -> Option<Hit<V>> {
    if has_value(first) || (first is Some && !has_value(second)) {
        first
    } else {
        second
    }
}

/// What a lookup finds: static text comes before a wildcard, a wildcard before a catch-all, and
/// a route that has a handler for the method before one that has none.
pub open spec fn find<V>(t: Tree<V>, method: Seq<char>, path: Seq<char>) -> Option<Hit<V>>
    decreases t, 1nat,
{
    if path.len() == 0 {
        find_here(t, method)
    } else {
        better(
            better(find_static(t, method, path), find_wildcard(t, method, path)),
            find_catch_all(t, method, path),
        )
    }
}

/// A handler on its way into the tree.
pub struct Registration<V> {
    pub method: Seq<char>,
    pub value: V,
    pub head_can_use_get: bool,
    pub add_slash: bool,
}

/// The leaf with one more handler. The mark of a trailing slash stays once it is set.
pub open spec fn with_handler<V>(
    leaf: Leaf<V>,
    method: Seq<char>,
    value: V,
    implicit_head: bool,
    add_slash: bool,
) -> Leaf<V> {
    Leaf {
        handlers: put(leaf.handlers, method, value),
        implicit_head: if method == "HEAD"@ {
            implicit_head
        } else {
            leaf.implicit_head
        },
        add_slash: leaf.add_slash || add_slash,
        ..leaf
    }
}

/// The leaf with the handler, which also serves `HEAD` if it serves `GET`, is allowed to, and
/// `HEAD` has no handler.
pub open spec fn registered<V>(leaf: Leaf<V>, r: Registration<V>) -> Leaf<V> {
    let explicit = with_handler(leaf, r.method, r.value, false, r.add_slash);
    if r.head_can_use_get && r.method == "GET"@ && value_of(explicit.handlers, "HEAD"@) is None {
        with_handler(explicit, "HEAD"@, r.value, true, r.add_slash)
    } else {
        explicit
    }
}

/// The leaf with the names, if there are names and it has none.
pub open spec fn named<V>(leaf: Leaf<V>, names: Option<Seq<Seq<char>>>) -> Leaf<V> {
    Leaf {
        names: if leaf.names is None {
            names
        } else {
            leaf.names
        },
        ..leaf
    }
}

/// Whether the pattern begins with a backslash that makes the next character a literal one.
pub open spec fn is_escaped(pattern: Seq<char>, in_token: bool) -> bool {
    &&& !in_token
    &&& segment_len(pattern) >= 2
    &&& pattern[0] == '\\'
    &&& pattern[1] == '*' || pattern[1] == ':' || pattern[1] == '\\'
}

/// How many characters of the pattern are dropped in front of its first static token.
pub open spec fn escape_len(pattern: Seq<char>, in_token: bool) -> nat {
    if is_escaped(pattern, in_token) {
        1
    } else {
        0
    }
}

/// The static token that the pattern begins with: a slash, or the text up to the next slash.
pub open spec fn static_token(pattern: Seq<char>, in_token: bool) -> Seq<char> {
    if pattern[0] == '/' {
        seq!['/']
    } else {
        pattern.take(segment_len(pattern) as int).skip(escape_len(pattern, in_token) as int)
    }
}

/// A static token is a non-empty stretch of the pattern, and is a slash or free of slashes.
pub proof fn lemma_static_token(pattern: Seq<char>, in_token: bool)
    requires
        pattern.len() > 0,
    ensures
        ({
            let skipped = escape_len(pattern, in_token);
            let token = static_token(pattern, in_token);
            &&& token.len() > 0
            &&& skipped + token.len() <= pattern.len()
            &&& token == pattern.skip(skipped as int).take(token.len() as int)
            &&& token[0] == pattern[skipped as int]
            &&& fragment_fits(token[0], token)
            &&& token == seq!['/'] <==> token[0] == '/'
        }),
{
    lemma_segment(pattern);
    let skipped = escape_len(pattern, in_token);
    let token = static_token(pattern, in_token);
    if pattern[0] != '/' {
        assert(segment_len(pattern) >= 1);
        assert(token =~= pattern.skip(skipped as int).take(token.len() as int));
        assert forall|i: int| 0 <= i < token.len() implies token[i] != '/' by {
            assert(token[i] == pattern[skipped + i]);
        }
        assert(!token.contains('/'));
        assert(token[0] != '/');
    } else {
        assert(segment_len(pattern) == 0);
        assert(token =~= pattern.skip(skipped as int).take(token.len() as int));
    }
}

/// The node cut in two after the first `n` characters of its path.
pub open spec fn split<V>(t: Tree<V>, n: nat) -> Tree<V> {
    if n < t.path.len() {
        Tree {
            priority: weight(t),
            indices: seq![t.path[n as int]],
            children: seq![Tree { path: t.path.skip(n as int), ..t }],
            ..blank_tree(t.path.take(n as int))
        }
    } else {
        t
    }
}

/// The tree with two static children exchanged.
pub open spec fn swapped<V>(t: Tree<V>, i: int, j: int) -> Tree<V> {
    Tree {
        indices: t.indices.update(i, t.indices[j]).update(j, t.indices[i]),
        children: t.children.update(i, t.children[j]).update(j, t.children[i]),
        ..t
    }
}

/// The tree with a static child moved in front of those that have a lower priority.
pub open spec fn bubbled<V>(t: Tree<V>, i: int) -> Tree<V>
    decreases i,
{
    if i > 0 && t.children[i].priority > t.children[i - 1].priority {
        bubbled(swapped(t, i - 1, i), i - 1)
    } else {
        t
    }
}

/// The tree with a static child replaced and moved to its place.
pub open spec fn with_child<V>(t: Tree<V>, i: int, child: Tree<V>) -> Tree<V> {
    bubbled(Tree { children: t.children.update(i, child), ..t }, i)
}

/// The tree with one more static child.
pub open spec fn with_new_child<V>(t: Tree<V>, index: char, child: Tree<V>) -> Tree<V> {
    Tree { indices: t.indices.push(index), children: t.children.push(child), ..t }
}

/// The tree with a static child replaced, moved to its place and counted.
pub open spec fn put_child<V>(t: Tree<V>, i: int, child: Tree<V>) -> Tree<V> {
    recounted(with_child(t, i, child))
}

/// The tree with one more static child, moved to its place and counted.
pub open spec fn add_child<V>(t: Tree<V>, index: char, child: Tree<V>) -> Tree<V> {
    recounted(bubbled(with_new_child(t, index, child), t.children.len() as int))
}

/// The tree with another wildcard, counted.
pub open spec fn put_wildcard<V>(t: Tree<V>, node: Tree<V>) -> Tree<V> {
    recounted(Tree { wildcard: Some(Box::new(node)), ..t })
}

/// The tree with another catch-all, counted.
pub open spec fn put_catch_all<V>(t: Tree<V>, node: Tree<V>) -> Tree<V> {
    recounted(Tree { catch_all: Some(Box::new(node)), ..t })
}

/// The tree's wildcard; a blank one of that name if it has none.
pub open spec fn wildcard_of<V>(t: Tree<V>, name: Seq<char>) -> Tree<V> {
    match t.wildcard {
        Some(w) => *w,
        None => blank_tree(name),
    }
}

/// The tree's catch-all; a blank one of that name if it has none.
pub open spec fn catch_all_of<V>(t: Tree<V>, name: Seq<char>) -> Tree<V> {
    match t.catch_all {
        Some(c) => *c,
        None => blank_catch_all(name),
    }
}

/// The name of the wildcard or catch-all that the pattern begins with.
pub open spec fn leading_name(pattern: Seq<char>) -> Seq<char> {
    pattern.take(segment_len(pattern) as int).skip(1)
}

/// The tree after a handler was registered for a pattern.
pub open spec fn grown<V>(
    t: Tree<V>,
    pattern: Seq<char>,
    names: Option<Seq<Seq<char>>>,
    in_token: bool,
    r: Registration<V>,
) -> Tree<V>
    decreases pattern.len(), t,
    when t.wf()
{
    if pattern.len() == 0 {
        Tree { leaf: registered(named(t.leaf, names), r), ..t }
    } else if pattern[0] == '*' && !in_token {
        let name = leading_name(pattern);
        let node = catch_all_of(t, name);
        let leaf = Leaf { names: Some(listed(names).push(name)), ..registered(node.leaf, r) };
        put_catch_all(t, Tree { leaf, ..node })
    } else if pattern[0] == ':' && !in_token {
        let name = leading_name(pattern);
        let rest = pattern.skip(segment_len(pattern) as int);
        proof {
            lemma_segment(pattern);
        }
        let below = grown(
            wildcard_of(t, name),
            rest,
            Some(listed(names).push(name)),
            false,
            r,
        );
        put_wildcard(t, below)
    } else {
        let skipped = escape_len(pattern, in_token);
        let token = static_token(pattern, in_token);
        proof {
            lemma_static_token(pattern, in_token);
        }
        if t.indices.contains(token[0]) {
            let i = t.indices.index_of(token[0]);
            let child = t.children[i];
            let n = common_len(child.path, token);
            proof {
                lemma_common(child.path, token);
            }
            let rest = pattern.skip((skipped + n) as int);
            put_child(t, i, grown(split(child, n), rest, names, token[0] != '/', r))
        } else {
            let rest = pattern.skip((skipped + token.len()) as int);
            add_child(
                t,
                token[0],
                grown(blank_tree(token), rest, names, token[0] != '/', r),
            )
        }
    }
}

/// Why the names of the wildcards on the way do not go with those that a leaf has.
pub open spec fn names_clash(
    had: Option<Seq<Seq<char>>>,
    names: Option<Seq<Seq<char>>>,
) -> Option<RouteError> {
    match (had, names) {
        (Some(old_names), Some(new_names)) => if old_names.len() != new_names.len() {
            Some(RouteError::WildcardCount)
        } else if old_names != new_names {
            Some(RouteError::WildcardNames)
        } else {
            None
        },
        _ => None,
    }
}

/// Whether a leaf has a handler for the method that cannot be replaced.
pub open spec fn is_taken<V>(leaf: Leaf<V>, method: Seq<char>) -> bool {
    value_of(leaf.handlers, method) is Some && (method != "HEAD"@ || !leaf.implicit_head)
}

/// Why a leaf cannot take a handler for the method.
pub open spec fn taken<V>(leaf: Leaf<V>, method: Seq<char>) -> Option<RouteError> {
    if is_taken(leaf, method) {
        Some(RouteError::AlreadyHandled)
    } else {
        None
    }
}

/// Why a pattern that begins with a catch-all cannot be entered at a node.
pub open spec fn catch_all_rejection<V>(
    t: Tree<V>,
    pattern: Seq<char>,
    method: Seq<char>,
) -> Option<RouteError> {
    let node = catch_all_of(t, leading_name(pattern));
    if pattern.skip(1) != node.path || segment_len(pattern) < pattern.len() {
        Some(RouteError::CatchAllName)
    } else {
        taken(node.leaf, method)
    }
}

/// Whether a node cannot count the values that one more registration may bring.
pub open spec fn is_full<V>(t: Tree<V>) -> bool {
    t.priority + 2 > usize::MAX
}

/// Why a handler for a pattern is refused.
pub open spec fn rejection<V>(
    t: Tree<V>,
    pattern: Seq<char>,
    names: Option<Seq<Seq<char>>>,
    in_token: bool,
    method: Seq<char>,
) -> Option<RouteError>
    decreases pattern.len(), t,
    when t.wf()
{
    if pattern.len() == 0 {
        match names_clash(t.leaf.names, names) {
            Some(e) => Some(e),
            None => taken(t.leaf, method),
        }
    } else if is_full(t) {
        Some(RouteError::TooManyRoutes)
    } else if pattern[0] == '*' && !in_token {
        catch_all_rejection(t, pattern, method)
    } else if pattern[0] == ':' && !in_token {
        let name = leading_name(pattern);
        let rest = pattern.skip(segment_len(pattern) as int);
        proof {
            lemma_segment(pattern);
        }
        rejection(wildcard_of(t, name), rest, Some(listed(names).push(name)), false, method)
    } else {
        let skipped = escape_len(pattern, in_token);
        let token = static_token(pattern, in_token);
        proof {
            lemma_static_token(pattern, in_token);
        }
        if t.indices.contains(token[0]) {
            let child = t.children[t.indices.index_of(token[0])];
            let n = common_len(child.path, token);
            proof {
                lemma_common(child.path, token);
            }
            let rest = pattern.skip((skipped + n) as int);
            rejection(split(child, n), rest, names, token[0] != '/', method)
        } else {
            let rest = pattern.skip((skipped + token.len()) as int);
            rejection(blank_tree::<V>(token), rest, names, token[0] != '/', method)
        }
    }
}

/// The tree after a handler was registered for a path from the root.
pub open spec fn entered<V>(t: Tree<V>, path: Seq<char>, r: Registration<V>) -> Tree<V> {
    grown(t, without_start_slash(path), None, false, r)
}

/// Why a handler for a path from the root is refused.
pub open spec fn refused<V>(t: Tree<V>, path: Seq<char>, method: Seq<char>) -> Option<RouteError> {
    rejection(t, without_start_slash(path), None, false, method)
}

} // verus!
