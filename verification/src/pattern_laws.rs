//! What patterns, routes and paths mean, letter by letter.

use vstd::prelude::*;

use crate::laws::ends_well;
use crate::lookup::{captures, prefers};
use crate::model::{
    entered, escape_len, grown, leading_name, literals, refused, rejection, static_token,
    Registration, Symbol, Tree,
};
use crate::routes::{end_of, names_in, route_of};
use crate::text::{lemma_segment_is, segment_len, without_end_slash, without_start_slash};

verus! {

/// Whether a text is what may follow a path segment: nothing, or something that starts with a slash.
pub open spec fn is_rest(rest: Seq<char>) -> bool {
    rest.len() == 0 || rest[0] == '/'
}

/// A text gives one literal for each of its characters.
pub proof fn law_literals(text: Seq<char>)
    ensures
        literals(text).len() == text.len(),
        forall|i: int| 0 <= i < text.len() ==> #[trigger] literals(text)[i] == Symbol::Literal(text[i]),
{
}

/// One leading slash is dropped, and one trailing slash, and nothing else.
pub proof fn law_slashes_dropped(text: Seq<char>)
    ensures
        without_start_slash(seq!['/'] + text) == text,
        text.len() == 0 || text[0] != '/' ==> without_start_slash(text) == text,
        without_end_slash(text + seq!['/']) == text,
        text.len() == 0 || text.last() != '/' ==> without_end_slash(text) == text,
{
    assert((seq!['/'] + text).skip(1) =~= text);
    assert((text + seq!['/']).drop_last() =~= text);
}

/// The empty pattern stands for the empty route.
pub proof fn law_pattern_empty(names: Option<Seq<Seq<char>>>, in_token: bool)
    ensures
        route_of(Seq::empty(), in_token) == Seq::<Symbol>::empty(),
        names_in(Seq::empty(), names, in_token) == names,
        end_of(Seq::empty(), in_token) is None,
        ends_well(Seq::empty(), in_token),
{
}

/// A slash in a pattern stands for itself, and a segment begins behind it.
pub proof fn law_pattern_slash(rest: Seq<char>, names: Option<Seq<Seq<char>>>, in_token: bool)
    ensures
        ({
            let pattern = seq!['/'] + rest;
            &&& route_of(pattern, in_token) == seq![Symbol::Literal('/')] + route_of(rest, false)
            &&& names_in(pattern, names, in_token) == names_in(rest, names, false)
            &&& end_of(pattern, in_token) == end_of(rest, false)
            &&& ends_well(pattern, in_token) == ends_well(rest, false)
        }),
{
    let pattern = seq!['/'] + rest;
    assert(pattern[0] == '/');
    assert(pattern.skip(1) =~= rest);
    assert(literals(seq!['/']) =~= seq![Symbol::Literal('/')]);
    assert(escape_len(pattern, in_token) == 0) by {
        assert(segment_len(pattern) == 0);
    }
}

/// What follows a segment reads the same whether a token came before it or not.
proof fn lemma_rest(rest: Seq<char>, names: Option<Seq<Seq<char>>>)
    requires
        is_rest(rest),
    ensures
        route_of(rest, true) == route_of(rest, false),
        names_in(rest, names, true) == names_in(rest, names, false),
        end_of(rest, true) == end_of(rest, false),
        ends_well(rest, true) == ends_well(rest, false),
{
    if rest.len() > 0 {
        let tail = rest.skip(1);
        assert(rest =~= seq!['/'] + tail);
        law_pattern_slash(tail, names, true);
        law_pattern_slash(tail, names, false);
    }
}

/// The first segment of a text that is made of a segment and a rest.
proof fn lemma_first_segment(segment: Seq<char>, rest: Seq<char>)
    requires
        !segment.contains('/'),
        is_rest(rest),
    ensures
        segment_len(segment + rest) == segment.len(),
        (segment + rest).take(segment.len() as int) == segment,
        (segment + rest).skip(segment.len() as int) == rest,
{
    let whole = segment + rest;
    assert forall|i: int| 0 <= i < segment.len() implies whole[i] != '/' by {
        assert(segment.contains(segment[i]));
    }
    lemma_segment_is(whole, segment.len());
    assert(whole.take(segment.len() as int) =~= segment);
    assert(whole.skip(segment.len() as int) =~= rest);
}

/// A segment that begins with a colon stands for a wildcard. Its name is all that follows the colon
/// up to the next slash or the end, and is added to the names.
pub proof fn law_pattern_wildcard(name: Seq<char>, rest: Seq<char>, names: Seq<Seq<char>>)
    requires
        !name.contains('/'),
        is_rest(rest),
    ensures
        ({
            let pattern = seq![':'] + name + rest;
            &&& leading_name(pattern) == name
            &&& route_of(pattern, false) == seq![Symbol::Wildcard] + route_of(rest, false)
            &&& names_in(pattern, None, false) == names_in(rest, Some(seq![name]), false)
            &&& names_in(pattern, Some(names), false) == names_in(rest, Some(names.push(name)), false)
            &&& end_of(pattern, false) == end_of(rest, false)
            &&& ends_well(pattern, false) == ends_well(rest, false)
        }),
{
    let segment = seq![':'] + name;
    let pattern = segment + rest;
    assert(!segment.contains('/')) by {
        if segment.contains('/') {
            let i = segment.index_of('/');
            assert(name[i - 1] == '/');
        }
    }
    lemma_first_segment(segment, rest);
    assert(pattern[0] == ':');
    assert(segment.skip(1) =~= name);
    assert(Seq::<Seq<char>>::empty().push(name) =~= seq![name]);
}

/// A last segment that begins with a star stands for a catch-all, whose name is all that follows the
/// star and is added to the names.
pub proof fn law_pattern_catch_all(name: Seq<char>, names: Seq<Seq<char>>)
    requires
        !name.contains('/'),
    ensures
        ({
            let pattern = seq!['*'] + name;
            &&& leading_name(pattern) == name
            &&& route_of(pattern, false) == seq![Symbol::CatchAll]
            &&& names_in(pattern, None, false) == Some(seq![name])
            &&& names_in(pattern, Some(names), false) == Some(names.push(name))
            &&& end_of(pattern, false) == Some(name)
            &&& ends_well(pattern, false)
        }),
{
    let pattern = seq!['*'] + name;
    assert(!pattern.contains('/')) by {
        if pattern.contains('/') {
            let i = pattern.index_of('/');
            assert(name[i - 1] == '/');
        }
    }
    lemma_first_segment(pattern, Seq::empty());
    assert(pattern + Seq::<char>::empty() =~= pattern);
    assert(pattern.skip(1) =~= name);
    assert(Seq::<Seq<char>>::empty().push(name) =~= seq![name]);
}

/// A catch-all that a slash follows does not end well.
pub proof fn law_pattern_behind_catch_all(name: Seq<char>, rest: Seq<char>)
    requires
        !name.contains('/'),
    ensures
        !ends_well(seq!['*'] + name + (seq!['/'] + rest), false),
{
    let segment = seq!['*'] + name;
    assert(!segment.contains('/')) by {
        if segment.contains('/') {
            let i = segment.index_of('/');
            assert(name[i - 1] == '/');
        }
    }
    lemma_first_segment(segment, seq!['/'] + rest);
    assert((segment + (seq!['/'] + rest))[0] == '*');
}

/// Whether a segment begins as an ordinary one: not with a colon or a star, nor with a backslash that
/// escapes a colon, a star or a backslash.
pub open spec fn is_ordinary(segment: Seq<char>) -> bool {
    &&& segment.len() > 0
    &&& segment[0] != ':'
    &&& segment[0] != '*'
    &&& segment[0] == '\\' && segment.len() > 1 ==> segment[1] != ':' && segment[1] != '*'
        && segment[1] != '\\'
}

/// An ordinary segment stands for its characters, whatever it holds behind its beginning.
pub proof fn law_pattern_ordinary(
    segment: Seq<char>,
    rest: Seq<char>,
    names: Option<Seq<Seq<char>>>,
)
    requires
        !segment.contains('/'),
        is_ordinary(segment),
        is_rest(rest),
    ensures
        ({
            let pattern = segment + rest;
            &&& route_of(pattern, false) == literals(segment) + route_of(rest, false)
            &&& names_in(pattern, names, false) == names_in(rest, names, false)
            &&& end_of(pattern, false) == end_of(rest, false)
            &&& ends_well(pattern, false) == ends_well(rest, false)
        }),
{
    let pattern = segment + rest;
    lemma_first_segment(segment, rest);
    lemma_rest(rest, names);
    assert(pattern[0] == segment[0]);
    if segment.len() > 1 {
        assert(pattern[1] == segment[1]);
    }
    assert(segment.contains(segment[0]));
    assert(segment.skip(0) =~= segment);
    assert(static_token(pattern, false) =~= segment);
}

/// A backslash at the beginning of a segment makes a colon, a star or a backslash behind it an
/// ordinary character.
pub proof fn law_pattern_escaped(
    c: char,
    text: Seq<char>,
    rest: Seq<char>,
    names: Option<Seq<Seq<char>>>,
)
    requires
        c == ':' || c == '*' || c == '\\',
        !text.contains('/'),
        is_rest(rest),
    ensures
        ({
            let pattern = seq!['\\', c] + text + rest;
            &&& route_of(pattern, false) == literals(seq![c] + text) + route_of(rest, false)
            &&& names_in(pattern, names, false) == names_in(rest, names, false)
            &&& end_of(pattern, false) == end_of(rest, false)
            &&& ends_well(pattern, false) == ends_well(rest, false)
        }),
{
    let segment = seq!['\\', c] + text;
    let pattern = segment + rest;
    assert(!segment.contains('/')) by {
        if segment.contains('/') {
            let i = segment.index_of('/');
            assert(text[i - 2] == '/');
        }
    }
    lemma_first_segment(segment, rest);
    lemma_rest(rest, names);
    assert(pattern[0] == '\\');
    assert(pattern[1] == c);
    assert(segment.skip(1) =~= seq![c] + text);
    assert(static_token(pattern, false) =~= seq![c] + text);
}

/// The empty route matches the empty path only.
pub proof fn law_match_empty(path: Seq<char>)
    ensures
        captures(Seq::empty(), path) == if path.len() == 0 {
            Some(Seq::<Seq<char>>::empty())
        } else {
            None
        },
{
}

/// A literal matches its character and nothing else.
pub proof fn law_match_literal(c: char, route: Seq<Symbol>, d: char, path: Seq<char>)
    ensures
        captures(seq![Symbol::Literal(c)] + route, seq![d] + path) == if c == d {
            captures(route, path)
        } else {
            None
        },
        captures(seq![Symbol::Literal(c)] + route, Seq::empty()) is None,
{
    let whole = seq![Symbol::Literal(c)] + route;
    assert(whole[0] == Symbol::Literal(c));
    assert(whole.skip(1) =~= route);
    assert((seq![d] + path).skip(1) =~= path);
}

/// A wildcard matches a whole segment, whatever it holds, and gives it as it stands. It does not
/// match where there is no segment.
pub proof fn law_match_wildcard(route: Seq<Symbol>, segment: Seq<char>, rest: Seq<char>)
    requires
        !segment.contains('/'),
        is_rest(rest),
    ensures
        captures(seq![Symbol::Wildcard] + route, segment + rest) == if segment.len() == 0 {
            None
        } else {
            match captures(route, rest) {
                Some(values) => Some(seq![segment] + values),
                None => None,
            }
        },
{
    let whole = seq![Symbol::Wildcard] + route;
    assert(whole[0] == Symbol::Wildcard);
    assert(whole.skip(1) =~= route);
    lemma_first_segment(segment, rest);
}

/// A catch-all matches every path that is not empty, and gives all of it.
pub proof fn law_match_catch_all(path: Seq<char>)
    ensures
        captures(seq![Symbol::CatchAll], path) == if path.len() == 0 {
            None
        } else {
            Some(seq![path])
        },
{
}

/// Of two routes that share a beginning, the one that goes on with a literal is preferred to one
/// that goes on with a wildcard or a catch-all, and the one that goes on with a wildcard to one that
/// goes on with a catch-all; never the other way round.
pub proof fn law_preference(
    shared: Seq<Symbol>,
    c: char,
    a: Seq<Symbol>,
    b: Seq<Symbol>,
)
    ensures
        ({
            let by_literal = shared + (seq![Symbol::Literal(c)] + a);
            let by_wildcard = shared + (seq![Symbol::Wildcard] + b);
            let by_catch_all = shared + seq![Symbol::CatchAll];
            &&& prefers(by_literal, by_wildcard)
            &&& prefers(by_literal, by_catch_all)
            &&& prefers(by_wildcard, by_catch_all)
            &&& !prefers(by_wildcard, by_literal)
            &&& !prefers(by_catch_all, by_literal)
            &&& !prefers(by_catch_all, by_wildcard)
        }),
    decreases shared.len(),
{
    let x = shared + (seq![Symbol::Literal(c)] + a);
    let y = shared + (seq![Symbol::Wildcard] + b);
    let z = shared + seq![Symbol::CatchAll];
    if shared.len() == 0 {
        assert(x[0] == Symbol::Literal(c));
        assert(y[0] == Symbol::Wildcard);
        assert(z[0] == Symbol::CatchAll);
    } else {
        let rest = shared.skip(1);
        assert(x.skip(1) =~= rest + (seq![Symbol::Literal(c)] + a));
        assert(y.skip(1) =~= rest + (seq![Symbol::Wildcard] + b));
        assert(z.skip(1) =~= rest + seq![Symbol::CatchAll]);
        law_preference(rest, c, a, b);
    }
}

/// No route is preferred to itself, to one that begins it or to one that it begins.
pub proof fn law_no_preference(a: Seq<Symbol>, b: Seq<Symbol>)
    ensures
        !prefers(a, a + b),
        !prefers(a + b, a),
    decreases a.len(),
{
    if a.len() > 0 {
        assert((a + b).skip(1) =~= a.skip(1) + b);
        law_no_preference(a.skip(1), b);
    }
}

/// Two routes that go on with different literals are not preferred to each other.
pub proof fn law_no_preference_of_literals(
    shared: Seq<Symbol>,
    c: char,
    d: char,
    a: Seq<Symbol>,
    b: Seq<Symbol>,
)
    requires
        c != d,
    ensures
        !prefers(
            shared + (seq![Symbol::Literal(c)] + a),
            shared + (seq![Symbol::Literal(d)] + b),
        ),
    decreases shared.len(),
{
    let x = shared + (seq![Symbol::Literal(c)] + a);
    let y = shared + (seq![Symbol::Literal(d)] + b);
    if shared.len() == 0 {
        assert(x[0] == Symbol::Literal(c));
        assert(y[0] == Symbol::Literal(d));
    } else {
        assert(x.skip(1) =~= shared.skip(1) + (seq![Symbol::Literal(c)] + a));
        assert(y.skip(1) =~= shared.skip(1) + (seq![Symbol::Literal(d)] + b));
        law_no_preference_of_literals(shared.skip(1), c, d, a, b);
    }
}

/// A leading slash makes no difference to what is registered or refused.
pub proof fn law_leading_slash<V>(
    t: Tree<V>,
    path: Seq<char>,
    r: Registration<V>,
)
    requires
        path.len() == 0 || path[0] != '/',
    ensures
        entered(t, seq!['/'] + path, r) == entered(t, path, r),
        entered(t, path, r) == grown(t, path, None, false, r),
        refused(t, seq!['/'] + path, r.method) == refused(t, path, r.method),
        refused(t, path, r.method) == rejection(t, path, None, false, r.method),
{
    law_slashes_dropped(path);
}

} // verus!
