//! A tree seen as a table of routes: which route a pattern stands for, what a tree holds for a
//! route, and how registering a handler changes it.

use vstd::prelude::*;

use crate::children::{child_at, lemma_add_child_child, lemma_index_of, lemma_put_child_child};
use crate::model::{
    add_child, blank_leaf, blank_tree, catch_all_of, escape_len, grown, leading_name,
    lemma_static_token, listed, literals, named, put_child, registered, split, static_token,
    wildcard_of, Leaf, Registration, Symbol, Tree,
};
use crate::shape::{lemma_child_prefix, lemma_grown_wf};
use crate::text::{common_len, lemma_common, lemma_segment, lemma_segment_is, segment_len};

verus! {

/// The route that a pattern stands for.
pub open spec fn route_of(pattern: Seq<char>, in_token: bool) -> Seq<Symbol>
    decreases pattern.len(),
{
    if pattern.len() == 0 {
        Seq::empty()
    } else if pattern[0] == '*' && !in_token {
        seq![Symbol::CatchAll]
    } else if pattern[0] == ':' && !in_token {
        let rest = pattern.skip(segment_len(pattern) as int);
        proof {
            lemma_segment(pattern);
        }
        seq![Symbol::Wildcard] + route_of(rest, false)
    } else {
        let token = static_token(pattern, in_token);
        let rest = pattern.skip((escape_len(pattern, in_token) + token.len()) as int);
        proof {
            lemma_static_token(pattern, in_token);
        }
        literals(token) + route_of(rest, token[0] != '/')
    }
}

/// The names of the wildcards and the catch-all in a pattern, after those on the way to it.
pub open spec fn names_in(
    pattern: Seq<char>,
    names: Option<Seq<Seq<char>>>,
    in_token: bool,
) -> Option<Seq<Seq<char>>>
    decreases pattern.len(),
{
    if pattern.len() == 0 {
        names
    } else if pattern[0] == '*' && !in_token {
        Some(listed(names).push(leading_name(pattern)))
    } else if pattern[0] == ':' && !in_token {
        let rest = pattern.skip(segment_len(pattern) as int);
        proof {
            lemma_segment(pattern);
        }
        names_in(rest, Some(listed(names).push(leading_name(pattern))), false)
    } else {
        let token = static_token(pattern, in_token);
        let rest = pattern.skip((escape_len(pattern, in_token) + token.len()) as int);
        proof {
            lemma_static_token(pattern, in_token);
        }
        names_in(rest, names, token[0] != '/')
    }
}

/// The name of the catch-all that a pattern ends in.
pub open spec fn end_of(pattern: Seq<char>, in_token: bool) -> Option<Seq<char>>
    decreases pattern.len(),
{
    if pattern.len() == 0 {
        None
    } else if pattern[0] == '*' && !in_token {
        Some(leading_name(pattern))
    } else if pattern[0] == ':' && !in_token {
        let rest = pattern.skip(segment_len(pattern) as int);
        proof {
            lemma_segment(pattern);
        }
        end_of(rest, false)
    } else {
        let token = static_token(pattern, in_token);
        let rest = pattern.skip((escape_len(pattern, in_token) + token.len()) as int);
        proof {
            lemma_static_token(pattern, in_token);
        }
        end_of(rest, token[0] != '/')
    }
}

/// What a tree has for a route, if it has a node there.
pub open spec fn leaf_at<V>(t: Tree<V>, route: Seq<Symbol>) -> Option<Leaf<V>>
    decreases t,
{
    if route.len() == 0 {
        Some(t.leaf)
    } else {
        match route[0] {
            Symbol::Literal(c) => if t.indices.contains(c) && t.indices.index_of(c)
                < t.children.len() {
                let child = t.children[t.indices.index_of(c)];
                if literals(child.path).is_prefix_of(route) {
                    leaf_at(child, route.skip(child.path.len() as int))
                } else {
                    None
                }
            } else {
                None
            },
            Symbol::Wildcard => match t.wildcard {
                Some(w) => leaf_at(*w, route.skip(1)),
                None => None,
            },
            Symbol::CatchAll => match t.catch_all {
                Some(c) => if route.len() == 1 {
                    Some(c.leaf)
                } else {
                    None
                },
                None => None,
            },
        }
    }
}

/// What a tree holds for a route.
pub open spec fn held_at<V>(t: Tree<V>, route: Seq<Symbol>) -> Leaf<V> {
    match leaf_at(t, route) {
        Some(leaf) => leaf,
        None => blank_leaf(),
    }
}

/// The leaf with a handler and names for its wildcards. A catch-all of that name takes the latest
/// names, any other route keeps the first.
pub open spec fn taking<V>(
    leaf: Leaf<V>,
    end: Option<Seq<char>>,
    names: Option<Seq<Seq<char>>>,
    r: Registration<V>,
) -> Leaf<V> {
    if end is Some {
        Leaf {
            names,
            catch_all: if leaf.catch_all is Some {
                leaf.catch_all
            } else {
                end
            },
            ..registered(leaf, r)
        }
    } else {
        registered(named(leaf, names), r)
    }
}

/// What a tree holds for a route that goes by a given child.
pub open spec fn held_via<V>(child: Tree<V>, route: Seq<Symbol>) -> Leaf<V> {
    if literals(child.path).is_prefix_of(route) {
        held_at(child, route.skip(child.path.len() as int))
    } else {
        blank_leaf()
    }
}

/// A route that begins with a character goes by the child of that character.
pub proof fn lemma_held_static<V>(t: Tree<V>, route: Seq<Symbol>, c: char)
    requires
        route.len() > 0,
        route[0] == Symbol::Literal(c),
    ensures
        held_at(t, route) == match child_at(t, c) {
            Some(child) => held_via(child, route),
            None => blank_leaf(),
        },
{
}

/// Characters that agree make routes that agree.
pub proof fn lemma_literals(a: Seq<char>, b: Seq<char>, rest: Seq<Symbol>)
    ensures
        literals(a + b) == literals(a) + literals(b),
        literals(a).is_prefix_of(literals(a) + rest),
        (literals(a) + rest).skip(a.len() as int) == rest,
        literals(a).len() == a.len(),
{
    assert(literals(a + b) =~= literals(a) + literals(b));
    assert(literals(a) =~= (literals(a) + rest).subrange(0, a.len() as int));
    assert((literals(a) + rest).skip(a.len() as int) =~= rest);
}

/// Cutting a node in two changes nothing for the routes.
#[verifier::spinoff_prover]
#[verifier::rlimit(40)]
pub proof fn lemma_held_split<V>(child: Tree<V>, n: nat, route: Seq<Symbol>)
    requires
        0 < n <= child.path.len(),
    ensures
        held_via(split(child, n), route) == held_via(child, route),
{
    if n < child.path.len() {
        let s = split(child, n);
        let lower = Tree { path: child.path.skip(n as int), ..child };
        let c = child.path[n as int];
        assert(s.indices[0] == c);
        lemma_index_of(s.indices, 0);
        assert(child_at(s, c) == Some(lower));
        if literals(s.path).is_prefix_of(route) {
            let rest = route.skip(n as int);
            assert forall|i: int| 0 <= i < n implies route[i] == Symbol::Literal(child.path[i]) by {
                assert(literals(s.path)[i] == route.subrange(0, n as int)[i]);
            }
            if rest.len() == 0 {
                assert(!literals(child.path).is_prefix_of(route));
                assert(route.last() == route[n - 1]);
            } else {
                if rest[0] == Symbol::Literal(c) {
                    lemma_held_static(s, rest, c);
                    if literals(lower.path).is_prefix_of(rest) {
                        let m = lower.path.len() as int;
                        assert forall|i: int| 0 <= i < child.path.len() implies route[i]
                            == Symbol::Literal(child.path[i]) by {
                            if i >= n {
                                assert(literals(lower.path)[i - n] == rest.subrange(0, m)[i - n]);
                            }
                        }
                        assert(literals(child.path) =~= route.subrange(
                            0,
                            child.path.len() as int,
                        ));
                        assert(rest.skip(m) =~= route.skip(child.path.len() as int));
                        let end = rest.skip(m);
                        assert(leaf_at(lower, end) == leaf_at(child, end));
                    } else {
                        if literals(child.path).is_prefix_of(route) {
                            let whole = route.subrange(0, child.path.len() as int);
                            assert forall|i: int| 0 <= i < lower.path.len() implies rest[i]
                                == Symbol::Literal(lower.path[i]) by {
                                assert(literals(child.path)[n + i] == whole[n + i]);
                            }
                            assert(literals(lower.path) =~= rest.subrange(
                                0,
                                lower.path.len() as int,
                            ));
                        }
                    }
                } else {
                    if literals(child.path).is_prefix_of(route) {
                        let whole = route.subrange(0, child.path.len() as int);
                        assert(literals(child.path)[n as int] == whole[n as int]);
                    }
                    match rest[0] {
                        Symbol::Literal(d) => {
                            lemma_held_static(s, rest, d);
                            if s.indices.contains(d) {
                                assert(s.indices[0] == d);
                            }
                        },
                        _ => {},
                    }
                }
            }
        } else {
            if literals(child.path).is_prefix_of(route) {
                let whole = route.subrange(0, child.path.len() as int);
                assert forall|i: int| 0 <= i < n implies route[i] == literals(s.path)[i] by {
                    assert(literals(child.path)[i] == whole[i]);
                }
                assert(literals(s.path) =~= route.subrange(0, n as int));
            }
        }
    }
}

/// A static token can be read in two parts.
pub proof fn lemma_cut_token(pattern: Seq<char>, in_token: bool, n: nat)
    requires
        pattern.len() > 0,
        in_token || (pattern[0] != '*' && pattern[0] != ':'),
        n <= static_token(pattern, in_token).len(),
        n == 0 ==> pattern[0] == '/',
    ensures
        ({
            let token = static_token(pattern, in_token);
            let rest = pattern.skip((escape_len(pattern, in_token) + n) as int);
            &&& route_of(pattern, in_token) == literals(token.take(n as int)) + route_of(
                rest,
                token[0] != '/',
            )
            &&& forall|names: Option<Seq<Seq<char>>>|
                #![trigger names_in(pattern, names, in_token)]
                names_in(pattern, names, in_token) == names_in(rest, names, token[0] != '/')
            &&& end_of(pattern, in_token) == end_of(rest, token[0] != '/')
        }),
{
    let skipped = escape_len(pattern, in_token);
    let token = static_token(pattern, in_token);
    let rest = pattern.skip((skipped + n) as int);
    lemma_static_token(pattern, in_token);
    lemma_segment(pattern);
    if n == token.len() {
        assert(token.take(n as int) =~= token);
    } else if n == 0 {
        assert(rest =~= pattern);
        assert(literals(token.take(0)) + route_of(rest, false) =~= route_of(rest, false));
        assert(route_of(pattern, in_token) == route_of(pattern, false));
    } else {
        let end = pattern.skip((skipped + token.len()) as int);
        assert(rest[0] == token[n as int]);
        assert(token.contains(token[n as int]));
        assert(rest[0] != '/');
        lemma_segment_is(rest, (token.len() - n) as nat);
        let tail = static_token(rest, true);
        assert(tail =~= token.skip(n as int));
        assert(tail[0] != '/');
        assert(rest.skip(tail.len() as int) =~= end);
        assert(token.take(n as int) + tail =~= token);
        lemma_literals(token.take(n as int), tail, Seq::empty());
        assert(literals(token.take(n as int)) + (literals(tail) + route_of(end, true)) =~= literals(
            token,
        ) + route_of(end, true));
    }
}

/// Registering a handler for a pattern changes what the tree holds for the route that the pattern
/// stands for, and for no other route.
#[verifier::spinoff_prover]
#[verifier::rlimit(40)]
pub proof fn law_registered_at<V>(
    t: Tree<V>,
    pattern: Seq<char>,
    names: Option<Seq<Seq<char>>>,
    in_token: bool,
    r: Registration<V>,
    route: Seq<Symbol>,
)
    requires
        t.wf(),
    ensures
        held_at(grown(t, pattern, names, in_token, r), route) == if route == route_of(
            pattern,
            in_token,
        ) {
            taking(
                held_at(t, route),
                end_of(pattern, in_token),
                names_in(pattern, names, in_token),
                r,
            )
        } else {
            held_at(t, route)
        },
    decreases pattern.len(), t, 1nat,
{
    let g = grown(t, pattern, names, in_token, r);
    let whole = route_of(pattern, in_token);
    if pattern.len() == 0 {
        lemma_same_below(t, g, route);
        if route.len() == 0 {
            assert(route =~= whole);
        }
    } else if pattern[0] == '*' && !in_token {
        lemma_same_below(t, g, route);
        if route == whole {
            let node = catch_all_of(t, leading_name(pattern));
            assert(route[0] == Symbol::CatchAll);
            assert(route.last() == Symbol::CatchAll);
            let leaf = held_at(t, route);
            assert(leaf.handlers == node.leaf.handlers);
            assert(registered(node.leaf, r) == (Leaf {
                catch_all: node.leaf.catch_all,
                ..registered(leaf, r)
            }));
            assert(held_at(g, route) == g.catch_all->0.leaf);
        } else if route.len() == 1 && route[0] == Symbol::CatchAll {
            assert(route =~= whole);
        }
    } else if pattern[0] == ':' && !in_token {
        lemma_registered_wildcard(t, pattern, names, r, route);
    } else if t.indices.contains(static_token(pattern, in_token)[0]) {
        lemma_registered_child(t, pattern, names, in_token, r, route);
    } else {
        lemma_registered_new_child(t, pattern, names, in_token, r, route);
    }
}

/// What `law_registered_at` states of a pattern that begins with a wildcard.
#[verifier::spinoff_prover]
#[verifier::rlimit(40)]
proof fn lemma_registered_wildcard<V>(
    t: Tree<V>,
    pattern: Seq<char>,
    names: Option<Seq<Seq<char>>>,
    r: Registration<V>,
    route: Seq<Symbol>,
)
    requires
        t.wf(),
        pattern.len() > 0,
        pattern[0] == ':',
    ensures
        held_at(grown(t, pattern, names, false, r), route) == if route == route_of(pattern, false) {
            taking(
                held_at(t, route),
                end_of(pattern, false),
                names_in(pattern, names, false),
                r,
            )
        } else {
            held_at(t, route)
        },
    decreases pattern.len(), t, 0nat,
{
    let g = grown(t, pattern, names, false, r);
    let whole = route_of(pattern, false);
    let name = leading_name(pattern);
    let rest = pattern.skip(segment_len(pattern) as int);
    let more = Some(listed(names).push(name));
    lemma_segment(pattern);
    lemma_same_below(t, g, route);
    assert(whole == seq![Symbol::Wildcard] + route_of(rest, false));
    assert(whole[0] == Symbol::Wildcard);
    if route.len() > 0 && route[0] == Symbol::Wildcard {
        let tail = route.skip(1);
        assert(whole.skip(1) =~= route_of(rest, false));
        assert((route == whole) == (tail == route_of(rest, false))) by {
            if tail == route_of(rest, false) {
                assert(route =~= seq![Symbol::Wildcard] + tail);
            }
        }
        law_registered_at(wildcard_of(t, name), rest, more, false, r, tail);
        lemma_held_blank::<V>(name, tail);
        assert(held_at(g, route) == held_at(*g.wildcard->0, tail));
        assert(held_at(t, route) == held_at(wildcard_of(t, name), tail));
    }
}

/// What `law_registered_at` states of a pattern whose static text a child shares.
#[verifier::spinoff_prover]
#[verifier::rlimit(40)]
proof fn lemma_registered_child<V>(
    t: Tree<V>,
    pattern: Seq<char>,
    names: Option<Seq<Seq<char>>>,
    in_token: bool,
    r: Registration<V>,
    route: Seq<Symbol>,
)
    requires
        t.wf(),
        pattern.len() > 0,
        in_token || (pattern[0] != '*' && pattern[0] != ':'),
        t.indices.contains(static_token(pattern, in_token)[0]),
    ensures
        held_at(grown(t, pattern, names, in_token, r), route) == if route == route_of(
            pattern,
            in_token,
        ) {
            taking(
                held_at(t, route),
                end_of(pattern, in_token),
                names_in(pattern, names, in_token),
                r,
            )
        } else {
            held_at(t, route)
        },
    decreases pattern.len(), t, 0nat,
{
    let g = grown(t, pattern, names, in_token, r);
    let skipped = escape_len(pattern, in_token);
    let token = static_token(pattern, in_token);
    let c = token[0];
    lemma_static_token(pattern, in_token);
    lemma_child_prefix(t, token);
    let i = t.indices.index_of(c);
    let child = t.children[i];
    let n = common_len(child.path, token);
    lemma_common(child.path, token);
    let cut = split(child, n);
    let rest = pattern.skip((skipped + n) as int);
    let below = grown(cut, rest, names, c != '/', r);
    lemma_grown_wf(cut, rest, names, c != '/', r);
    assert(g == put_child(t, i, below));
    assert(cut.path == token.take(n as int));
    lemma_cut_token(pattern, in_token, n);
    let end = route_of(rest, c != '/');
    let all = names_in(pattern, names, in_token);
    assert(route_of(pattern, in_token) == literals(cut.path) + end);
    assert(all == names_in(rest, names, c != '/'));
    assert((literals(cut.path) + end).len() > 0 && (literals(cut.path) + end)[0]
        == Symbol::Literal(c)) by {
        lemma_cut_token(pattern, in_token, token.len());
        assert(literals(token.take(token.len() as int))[0] == Symbol::Literal(c));
    }
    let tail = route.skip(n as int);
    law_registered_at(cut, rest, names, c != '/', r, tail);
    lemma_cut_child_held(t, c, n, below, route);
    lemma_route_step(literals(cut.path), end, route, c);
}

/// A route is made of two pieces if it begins with the first and its rest is the second.
proof fn lemma_route_step(a: Seq<Symbol>, b: Seq<Symbol>, route: Seq<Symbol>, c: char)
    requires
        (a + b).len() > 0,
        (a + b)[0] == Symbol::Literal(c),
    ensures
        (route == a + b) == (route.len() > 0 && route[0] == Symbol::Literal(c) && a.is_prefix_of(
            route,
        ) && route.skip(a.len() as int) == b),
{
    if route == a + b {
        assert(a =~= route.subrange(0, a.len() as int));
        assert(route.skip(a.len() as int) =~= b);
    }
    if a.is_prefix_of(route) && route.skip(a.len() as int) == b {
        assert(route =~= a + b);
    }
}

/// What `law_registered_at` states of a pattern whose static text no child shares.
#[verifier::spinoff_prover]
#[verifier::rlimit(40)]
proof fn lemma_registered_new_child<V>(
    t: Tree<V>,
    pattern: Seq<char>,
    names: Option<Seq<Seq<char>>>,
    in_token: bool,
    r: Registration<V>,
    route: Seq<Symbol>,
)
    requires
        t.wf(),
        pattern.len() > 0,
        in_token || (pattern[0] != '*' && pattern[0] != ':'),
        !t.indices.contains(static_token(pattern, in_token)[0]),
    ensures
        held_at(grown(t, pattern, names, in_token, r), route) == if route == route_of(
            pattern,
            in_token,
        ) {
            taking(
                held_at(t, route),
                end_of(pattern, in_token),
                names_in(pattern, names, in_token),
                r,
            )
        } else {
            held_at(t, route)
        },
    decreases pattern.len(), t, 0nat,
{
    let g = grown(t, pattern, names, in_token, r);
    let skipped = escape_len(pattern, in_token);
    let token = static_token(pattern, in_token);
    let c = token[0];
    lemma_static_token(pattern, in_token);
    let rest = pattern.skip((skipped + token.len()) as int);
    let fresh = blank_tree::<V>(token);
    let below = grown(fresh, rest, names, c != '/', r);
    lemma_grown_wf(fresh, rest, names, c != '/', r);
    assert(g == add_child(t, c, below));
    let end = route_of(rest, c != '/');
    assert(route_of(pattern, in_token) == literals(token) + end);
    assert(names_in(pattern, names, in_token) == names_in(rest, names, c != '/'));
    let tail = route.skip(token.len() as int);
    law_registered_at(fresh, rest, names, c != '/', r, tail);
    lemma_held_blank::<V>(token, tail);
    lemma_new_child_held(t, below, c, route);
    lemma_route_step(literals(token), end, route, c);
    if literals(token).is_prefix_of(route) {
        assert(literals(token)[0] == route.subrange(0, token.len() as int)[0]);
    }
}

/// Trees that have the same below their roots hold the same, but for the empty route.
pub proof fn lemma_same_below<V>(t: Tree<V>, u: Tree<V>, route: Seq<Symbol>)
    requires
        t.indices == u.indices,
        t.children == u.children,
    ensures
        route.len() > 0 && route[0] is Literal ==> held_at(t, route) == held_at(u, route),
        route.len() > 0 && route[0] is Wildcard && t.wildcard == u.wildcard ==> held_at(t, route)
            == held_at(u, route),
        route.len() > 0 && route[0] is CatchAll && t.catch_all == u.catch_all ==> held_at(t, route)
            == held_at(u, route),
        route.len() == 0 ==> held_at(t, route) == t.leaf && held_at(u, route) == u.leaf,
{
}

/// A blank tree holds nothing.
pub proof fn lemma_held_blank<V>(path: Seq<char>, route: Seq<Symbol>)
    ensures
        held_at(blank_tree::<V>(path), route) == blank_leaf::<V>(),
{
}

/// Routes that do not begin with the character of a replaced child are held as before.
pub proof fn lemma_other_first<V>(
    t: Tree<V>,
    g: Tree<V>,
    route: Seq<Symbol>,
    c: char,
    i: int,
    below: Tree<V>,
)
    requires
        t.wf(),
        0 <= i < t.children.len(),
        t.indices[i] == c,
        g == put_child(t, i, below),
        route.len() == 0 || route[0] != Symbol::Literal(c),
    ensures
        held_at(g, route) == held_at(t, route),
{
    lemma_put_child_child(t, i, below, c);
    if route.len() > 0 {
        match route[0] {
            Symbol::Literal(d) => {
                lemma_put_child_child(t, i, below, d);
                lemma_held_static(t, route, d);
                lemma_held_static(g, route, d);
            },
            _ => {},
        }
    }
}

/// Behind a new child the routes are held as the child holds them, and nothing was held before.
pub proof fn lemma_new_child_held<V>(t: Tree<V>, below: Tree<V>, c: char, route: Seq<Symbol>)
    requires
        t.wf(),
        !t.indices.contains(c),
        below.path.len() > 0,
        below.path[0] == c,
    ensures
        ({
            let g = add_child(t, c, below);
            let tail = route.skip(below.path.len() as int);
            if literals(below.path).is_prefix_of(route) {
                held_at(g, route) == held_at(below, tail) && held_at(t, route) == blank_leaf::<V>()
            } else {
                held_at(g, route) == held_at(t, route)
            }
        }),
{
    let g = add_child(t, c, below);
    let n = below.path.len() as int;
    lemma_add_child_child(t, c, below, c);
    if route.len() > 0 && route[0] == Symbol::Literal(c) {
        lemma_held_static(t, route, c);
        lemma_held_static(g, route, c);
    } else {
        if literals(below.path).is_prefix_of(route) {
            assert(literals(below.path)[0] == route.subrange(0, n)[0]);
        }
        if route.len() > 0 && route[0] is Literal {
            let d = route[0]->Literal_0;
            lemma_held_static(t, route, d);
            lemma_held_static(g, route, d);
            lemma_add_child_child(t, c, below, d);
        }
    }
}

/// Behind a child that was cut and replaced the routes are held as the new child holds them, and
/// were held as the cut child holds them.
pub proof fn lemma_cut_child_held<V>(
    t: Tree<V>,
    c: char,
    n: nat,
    below: Tree<V>,
    route: Seq<Symbol>,
)
    requires
        t.wf(),
        t.indices.contains(c),
        n <= t.children[t.indices.index_of(c)].path.len(),
        t.children[t.indices.index_of(c)].path.len() > 0 ==> n > 0,
        below.path == t.children[t.indices.index_of(c)].path.take(n as int),
    ensures
        ({
            let i = t.indices.index_of(c);
            let cut = split(t.children[i], n);
            let g = put_child(t, i, below);
            let tail = route.skip(n as int);
            if route.len() > 0 && route[0] == Symbol::Literal(c) && literals(
                below.path,
            ).is_prefix_of(route) {
                held_at(g, route) == held_at(below, tail) && held_at(t, route) == held_at(cut, tail)
            } else {
                held_at(g, route) == held_at(t, route)
            }
        }),
{
    let i = t.indices.index_of(c);
    let child = t.children[i];
    let cut = split(child, n);
    let g = put_child(t, i, below);
    if route.len() > 0 && route[0] == Symbol::Literal(c) {
        lemma_put_child_child(t, i, below, c);
        lemma_held_static(t, route, c);
        lemma_held_static(g, route, c);
        assert(child_at(t, c) == Some(child));
        if n > 0 {
            lemma_held_split(child, n, route);
        }
        if n == child.path.len() {
            assert(child.path.take(n as int) =~= child.path);
        }
        assert(cut.path == below.path);
    } else {
        lemma_other_first(t, g, route, c, i, below);
    }
}

} // verus!
