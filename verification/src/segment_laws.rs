//! What a pattern of segments matches, and under which names.

use vstd::prelude::*;

use crate::laws::{ends_well, law_parameters_are_named, law_registered_is_found};
use crate::lookup::{captures, lemma_captures_literals, prefers};
use crate::method::{lemma_entry_at, value_of};
use crate::model::{
    blank_leaf, blank_tree, entered, find, listed, literals, refused, Registration, Symbol, Tree,
};
use crate::pattern_laws::{
    is_ordinary, is_rest, law_match_catch_all, law_match_empty, law_match_literal,
    law_match_wildcard, law_pattern_catch_all, law_pattern_empty, law_pattern_ordinary,
    law_pattern_slash, law_pattern_wildcard,
};
use crate::routes::{held_at, lemma_held_blank, names_in, route_of};
use crate::shape::lemma_blank_wf;

verus! {

/// A segment of a pattern.
pub enum Segment {
    /// A text that stands for itself.
    Text(Seq<char>),
    /// A wildcard of that name.
    Variable(Seq<char>),
    /// A catch-all of that name.
    Rest(Seq<char>),
}

/// The pattern that segments are written as.
pub open spec fn written(segments: Seq<Segment>) -> Seq<char>
    decreases segments.len(),
{
    if segments.len() == 0 {
        Seq::empty()
    } else {
        seq!['/'] + ((match segments[0] {
            Segment::Text(text) => text,
            Segment::Variable(name) => seq![':'] + name,
            Segment::Rest(name) => seq!['*'] + name,
        }) + written(segments.skip(1)))
    }
}

/// The names of the wildcards and of the catch-all.
pub open spec fn names_of_segments(segments: Seq<Segment>) -> Seq<Seq<char>>
    decreases segments.len(),
{
    if segments.len() == 0 {
        Seq::empty()
    } else {
        (match segments[0] {
            Segment::Text(text) => Seq::empty(),
            Segment::Variable(name) => seq![name],
            Segment::Rest(name) => seq![name],
        }) + names_of_segments(segments.skip(1))
    }
}

/// The path that comes of putting values in the place of the wildcards and of the catch-all.
pub open spec fn filled(segments: Seq<Segment>, values: Seq<Seq<char>>) -> Seq<char>
    decreases segments.len(),
{
    if segments.len() == 0 {
        Seq::empty()
    } else {
        match segments[0] {
            Segment::Text(text) => seq!['/'] + (text + filled(segments.skip(1), values)),
            _ => seq!['/'] + (values[0] + filled(segments.skip(1), values.skip(1))),
        }
    }
}

/// Whether segments and values go together: texts are ordinary, nothing but a slash parts segments,
/// a catch-all is the last one, and there is a value for each name, a segment for a wildcard.
pub open spec fn fit(segments: Seq<Segment>, values: Seq<Seq<char>>) -> bool
    decreases segments.len(),
{
    if segments.len() == 0 {
        values.len() == 0
    } else {
        match segments[0] {
            Segment::Text(text) => {
                &&& !text.contains('/')
                &&& is_ordinary(text)
                &&& fit(segments.skip(1), values)
            },
            Segment::Variable(name) => {
                &&& !name.contains('/')
                &&& values.len() > 0
                &&& values[0].len() > 0
                &&& !values[0].contains('/')
                &&& fit(segments.skip(1), values.skip(1))
            },
            Segment::Rest(name) => {
                &&& !name.contains('/')
                &&& segments.len() == 1
                &&& values.len() == 1
                &&& values[0].len() > 0
            },
        }
    }
}

/// A literal text in front of a route.
proof fn lemma_captures_text(text: Seq<char>, route: Seq<Symbol>, rest: Seq<char>)
    ensures
        captures(literals(text) + route, text + rest) == captures(route, rest),
{
    assert(text =~= (text + rest).subrange(0, text.len() as int));
    assert((text + rest).skip(text.len() as int) =~= rest);
    lemma_captures_literals(text, route, text + rest);
}

/// The path that comes of filling a pattern matches it, and what is captured is what was filled in.
/// The names that the pattern gives are those of its wildcards and of its catch-all, in order.
pub proof fn law_filled_pattern_matches(
    segments: Seq<Segment>,
    values: Seq<Seq<char>>,
    names: Option<Seq<Seq<char>>>,
)
    requires
        fit(segments, values),
    ensures
        captures(route_of(written(segments), false), filled(segments, values)) == Some(values),
        is_rest(written(segments)),
        is_rest(filled(segments, values)),
        ends_well(written(segments), false),
        names_of_segments(segments).len() == values.len(),
        names_in(written(segments), names, false) == if values.len() == 0 {
            names
        } else {
            Some(listed(names) + names_of_segments(segments))
        },
    decreases segments.len(),
{
    if segments.len() == 0 {
        law_pattern_empty(names, false);
        law_match_empty(Seq::empty());
        assert(values =~= Seq::empty());
    } else {
        let rest = segments.skip(1);
        match segments[0] {
            Segment::Text(text) => {
                law_filled_pattern_matches(rest, values, names);
                let tail = text + written(rest);
                law_pattern_slash(tail, names, false);
                law_pattern_ordinary(text, written(rest), names);
                law_match_literal('/', route_of(tail, false), '/', text + filled(rest, values));
                lemma_captures_text(text, route_of(written(rest), false), filled(rest, values));
                assert(Seq::<Seq<char>>::empty() + names_of_segments(rest) =~= names_of_segments(
                    rest,
                ));
            },
            Segment::Variable(name) => {
                let more = values.skip(1);
                let own = listed(names).push(name);
                law_filled_pattern_matches(rest, more, Some(own));
                let tail = seq![':'] + name + written(rest);
                law_pattern_slash(tail, names, false);
                law_pattern_wildcard(name, written(rest), listed(names));
                law_match_literal(
                    '/',
                    route_of(tail, false),
                    '/',
                    values[0] + filled(rest, more),
                );
                law_match_wildcard(
                    route_of(written(rest), false),
                    values[0],
                    filled(rest, more),
                );
                assert(seq![values[0]] + more =~= values);
                assert(own =~= listed(names) + seq![name]);
                assert(seq![name] =~= listed(None).push(name));
                assert(own + names_of_segments(rest) =~= listed(names) + names_of_segments(
                    segments,
                ));
                if more.len() == 0 {
                    assert(names_of_segments(rest) =~= Seq::empty());
                    assert(own + names_of_segments(rest) =~= own);
                }
            },
            Segment::Rest(name) => {
                let tail = seq!['*'] + name;
                assert(rest =~= Seq::empty());
                assert(tail + written(rest) =~= tail);
                assert(values[0] + filled(rest, values.skip(1)) =~= values[0]);
                law_pattern_slash(tail, names, false);
                law_pattern_catch_all(name, listed(names));
                law_match_literal('/', route_of(tail, false), '/', values[0]);
                law_match_catch_all(values[0]);
                assert(seq![values[0]] =~= values);
                assert(names_of_segments(rest) == Seq::<Seq<char>>::empty());
                assert(names_of_segments(segments) =~= seq![name]);
                assert(listed(names).push(name) =~= listed(names) + seq![name]);
                assert(seq![name] =~= listed(None).push(name));
            },
        }
    }
}

/// A handler that is registered for a pattern is found by every path that comes of filling the
/// pattern with values, and is given each value under the name that it was filled in for, unless a
/// pattern that is preferred matches the path and has a handler for the method.
pub proof fn law_filled_pattern_is_found<V>(
    t: Tree<V>,
    segments: Seq<Segment>,
    values: Seq<Seq<char>>,
    r: Registration<V>,
)
    requires
        t.strict(),
        segments.len() > 0,
        fit(segments, values),
        refused(t, written(segments), r.method) is None,
        forall|other: Seq<Symbol>|
            #![trigger held_at(t, other)]
            prefers(other, route_of(written(segments).skip(1), false)) && captures(
                other,
                filled(segments, values).skip(1),
            ) is Some ==> value_of(held_at(t, other).handlers, r.method) is None,
    ensures
        find(
            entered(t, written(segments), r),
            r.method,
            filled(segments, values).skip(1),
        ) matches Some(h) && h.value == Some(r.value) && h.params == values && (values.len() > 0
            ==> h.names == names_of_segments(segments)),
{
    let pattern = written(segments);
    let path = filled(segments, values);
    let tail = pattern.skip(1);
    assert(pattern =~= seq!['/'] + tail);
    assert(path =~= seq!['/'] + path.skip(1));
    law_filled_pattern_matches(segments, values, None);
    law_pattern_slash(tail, None, false);
    law_match_literal('/', route_of(tail, false), '/', path.skip(1));
    law_registered_is_found(t, pattern, r, path.skip(1));
    law_parameters_are_named(t, pattern, r, path.skip(1));
    assert(listed(None) + names_of_segments(segments) =~= names_of_segments(segments));
}

/// A router that one handler is registered in finds it by every path that comes of filling its
/// pattern, whatever the names and the values are.
pub proof fn law_only_pattern_is_found<V>(
    segments: Seq<Segment>,
    values: Seq<Seq<char>>,
    r: Registration<V>,
)
    requires
        segments.len() > 0,
        fit(segments, values),
    ensures
        refused(blank_tree::<V>(seq!['/']), written(segments), r.method) is None,
        find(
            entered(blank_tree::<V>(seq!['/']), written(segments), r),
            r.method,
            filled(segments, values).skip(1),
        ) matches Some(h) && h.value == Some(r.value) && h.params == values && (values.len() > 0
            ==> h.names == names_of_segments(segments)),
{
    let t = blank_tree::<V>(seq!['/']);
    let pattern = written(segments);
    let tail = pattern.skip(1);
    lemma_blank_wf::<V>(seq!['/']);
    assert(pattern =~= seq!['/'] + tail);
    law_filled_pattern_matches(segments, values, None);
    law_pattern_slash(tail, None, false);
    assert forall|other: Seq<Symbol>| #[trigger] held_at(t, other) == blank_leaf::<V>() by {
        lemma_held_blank::<V>(seq!['/'], other);
    }
    lemma_entry_at(blank_leaf::<V>().handlers, r.method);
    crate::laws::law_free_is_accepted(t, tail, None, false, r.method);
    law_filled_pattern_is_found(t, segments, values, r);
}

} // verus!
