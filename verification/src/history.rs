//! Trees that were built by registering one handler after the other.

use vstd::prelude::*;

use crate::decode::all_decoded;
use crate::laws::{
    ends_well, law_accepted_names_agree, law_free_is_accepted, law_grown_strict,
    law_taken_is_refused, law_taking_handlers, lemma_captures_and_variables, lemma_end_of_route,
    lemma_names_and_variables, lemma_names_some,
};
use crate::lookup::{captures, law_found_is_registered};
use crate::method::{lemma_method_names, value_of};
use crate::model::{
    blank_leaf, blank_tree, entered, find, is_full, is_taken, listed, refused, Leaf, Registration,
    Symbol, Tree,
};
use crate::params::zipped;
use crate::routes::{
    end_of, held_at, law_registered_at, lemma_held_blank, names_in, route_of, taking,
};
use crate::shape::lemma_blank_wf;
use crate::text::without_start_slash;

verus! {

/// A pattern and what was registered for it.
pub struct Entry<V> {
    pub pattern: Seq<char>,
    pub registration: Registration<V>,
}

/// The tree that a new one becomes when handlers are registered one after the other.
pub open spec fn history<V>(list: Seq<Entry<V>>) -> Tree<V>
    decreases list.len(),
{
    if list.len() == 0 {
        blank_tree("/"@)
    } else {
        entered(history(list.drop_last()), list.last().pattern, list.last().registration)
    }
}

/// Whether no registration was refused.
pub open spec fn accepted<V>(list: Seq<Entry<V>>) -> bool
    decreases list.len(),
{
    list.len() == 0 || {
        &&& accepted(list.drop_last())
        &&& refused(
            history(list.drop_last()),
            list.last().pattern,
            list.last().registration.method,
        ) is None
    }
}

/// The pattern of an entry without its leading slash.
pub open spec fn spelling<V>(e: Entry<V>) -> Seq<char> {
    without_start_slash(e.pattern)
}

/// The route of an entry.
pub open spec fn entry_route<V>(e: Entry<V>) -> Seq<Symbol> {
    route_of(spelling(e), false)
}

/// The names in the pattern of an entry.
pub open spec fn entry_names<V>(e: Entry<V>) -> Option<Seq<Seq<char>>> {
    names_in(spelling(e), None, false)
}

/// Whether an entry is for the route.
pub open spec fn is_routed<V>(list: Seq<Entry<V>>, j: int, route: Seq<Symbol>) -> bool {
    0 <= j < list.len() && entry_route(list[j]) == route
}

/// Whether a handler was registered for the route and the method by itself.
pub open spec fn was_inserted<V>(list: Seq<Entry<V>>, route: Seq<Symbol>, method: Seq<char>) -> bool {
    exists|j: int| #[trigger] is_routed(list, j, route) && list[j].registration.method == method
}

/// A tree that was built by registrations is strict, and its root is a slash.
pub proof fn lemma_history_strict<V>(list: Seq<Entry<V>>)
    ensures
        history(list).strict(),
        history(list).path == "/"@,
    decreases list.len(),
{
    if list.len() == 0 {
        lemma_blank_wf::<V>("/"@);
    } else {
        let front = history(list.drop_last());
        let last = list.last();
        lemma_history_strict(list.drop_last());
        law_grown_strict(front, spelling(last), None, false, last.registration);
        crate::shape::lemma_grown_wf(front, spelling(last), None, false, last.registration);
    }
}

/// An entry of all but the last entry is an entry of all.
proof fn lemma_front<V>(list: Seq<Entry<V>>, route: Seq<Symbol>, method: Seq<char>)
    requires
        list.len() > 0,
    ensures
        forall|j: int|
            #![trigger is_routed(list, j, route)]
            #![trigger is_routed(list.drop_last(), j, route)]
            is_routed(list, j, route) <==> is_routed(list.drop_last(), j, route) || (j == list.len()
                - 1 && entry_route(list.last()) == route),
        was_inserted(list, route, method) <==> was_inserted(list.drop_last(), route, method) || (
        entry_route(list.last()) == route && list.last().registration.method == method),
{
    let front = list.drop_last();
    assert forall|j: int|
        #![trigger is_routed(list, j, route)]
        #![trigger is_routed(front, j, route)]
        is_routed(list, j, route) <==> is_routed(front, j, route) || (j == list.len() - 1
            && entry_route(list.last()) == route) by {
        if 0 <= j < front.len() {
            assert(front[j] == list[j]);
        }
    }
    if was_inserted(front, route, method) {
        let j = choose|j: int| #[trigger]
            is_routed(front, j, route) && front[j].registration.method == method;
        assert(front[j] == list[j]);
        assert(is_routed(list, j, route));
    }
    if entry_route(list.last()) == route && list.last().registration.method == method {
        assert(is_routed(list, list.len() - 1, route));
    }
    if was_inserted(list, route, method) {
        let j = choose|j: int| #[trigger]
            is_routed(list, j, route) && list[j].registration.method == method;
        if j < front.len() {
            assert(front[j] == list[j]);
            assert(is_routed(front, j, route));
        }
    }
}

/// What a tree holds for a route is what the last registration for the route made of it.
proof fn lemma_history_step<V>(list: Seq<Entry<V>>, route: Seq<Symbol>)
    requires
        list.len() > 0,
    ensures
        ({
            let before = held_at(history(list.drop_last()), route);
            let last = list.last();
            held_at(history(list), route) == if entry_route(last) == route {
                taking(before, end_of(spelling(last), false), entry_names(last), last.registration)
            } else {
                before
            }
        }),
{
    let last = list.last();
    lemma_history_strict(list.drop_last());
    law_registered_at(
        history(list.drop_last()),
        spelling(last),
        None,
        false,
        last.registration,
        route,
    );
}

/// What stands for a route that nothing was registered for.
proof fn lemma_history_blank<V>(list: Seq<Entry<V>>, route: Seq<Symbol>)
    requires
        forall|j: int| !#[trigger] is_routed(list, j, route),
    ensures
        held_at(history(list), route) == blank_leaf::<V>(),
    decreases list.len(),
{
    if list.len() == 0 {
        lemma_held_blank::<V>("/"@, route);
    } else {
        lemma_front(list, route, Seq::empty());
        lemma_history_step(list, route);
        assert forall|j: int| !#[trigger] is_routed(list.drop_last(), j, route) by {
            assert(!is_routed(list, j, route));
        }
        assert(!is_routed(list, list.len() - 1, route));
        lemma_history_blank(list.drop_last(), route);
    }
}

/// A route has a handler for a method that cannot be replaced exactly where one was registered for
/// the method by itself: a handler for `HEAD` that came with one for `GET` does not count.
pub proof fn law_taken_is_inserted<V>(list: Seq<Entry<V>>, route: Seq<Symbol>, method: Seq<char>)
    ensures
        is_taken(held_at(history(list), route), method) <==> was_inserted(list, route, method),
{
    lemma_taken(list, route, method);
}

/// What `law_taken_is_inserted` states, with what it rests on.
proof fn lemma_taken<V>(list: Seq<Entry<V>>, route: Seq<Symbol>, method: Seq<char>)
    ensures
        ({
            let leaf = held_at(history(list), route);
            let head = was_inserted(list, route, "HEAD"@);
            &&& method != "HEAD"@ ==> (value_of(leaf.handlers, method) is Some <==> was_inserted(
                list,
                route,
                method,
            ))
            &&& head ==> value_of(leaf.handlers, "HEAD"@) is Some
            &&& leaf.implicit_head == !head
        }),
    decreases list.len(),
{
    lemma_method_names();
    if list.len() == 0 {
        lemma_held_blank::<V>("/"@, route);
        crate::method::lemma_entry_at(blank_leaf::<V>().handlers, method);
    } else {
        let before = held_at(history(list.drop_last()), route);
        let last = list.last();
        lemma_taken(list.drop_last(), route, method);
        lemma_front(list, route, method);
        lemma_front(list, route, "HEAD"@);
        lemma_history_step(list, route);
        if entry_route(last) == route {
            let end = end_of(spelling(last), false);
            law_taking_handlers(before, end, entry_names(last), last.registration, method);
            law_taking_handlers(before, end, entry_names(last), last.registration, "HEAD"@);
            lemma_implicit_head(before, end, entry_names(last), last.registration);
        }
    }
}

/// What becomes of the mark of a `HEAD` handler that may be replaced.
proof fn lemma_implicit_head<V>(
    leaf: Leaf<V>,
    end: Option<Seq<char>>,
    names: Option<Seq<Seq<char>>>,
    r: Registration<V>,
)
    requires
        value_of(leaf.handlers, "HEAD"@) is None ==> leaf.implicit_head,
    ensures
        taking(leaf, end, names, r).implicit_head == (r.method != "HEAD"@ && leaf.implicit_head),
{
    lemma_method_names();
    crate::method::law_put_then_value(leaf.handlers, r.method, r.value, "HEAD"@);
}

/// The name of the catch-all of a route is that of every pattern that was registered for it, and
/// the names are those of every such pattern; of patterns that end in a catch-all this holds if all
/// of them have the same names.
pub proof fn law_history_names<V>(list: Seq<Entry<V>>, j: int)
    requires
        accepted(list),
        0 <= j < list.len(),
        end_of(spelling(list[j]), false) is Some ==> forall|k: int| #[trigger]
            is_routed(list, k, entry_route(list[j])) ==> entry_names(list[k]) == entry_names(list[j]),
    ensures
        held_at(history(list), entry_route(list[j])).names == entry_names(list[j]),
        end_of(spelling(list[j]), false) is Some ==> held_at(
            history(list),
            entry_route(list[j]),
        ).catch_all == end_of(spelling(list[j]), false),
    decreases list.len(),
{
    let route = entry_route(list[j]);
    let front = list.drop_last();
    let last = list.last();
    let before = held_at(history(front), route);
    lemma_front(list, route, Seq::empty());
    lemma_history_step(list, route);
    lemma_history_strict(front);
    assert(is_routed(list, j, route));
    lemma_end_of_route(spelling(list[j]), false);
    lemma_names_some(spelling(list[j]), None, false);
    if j < front.len() {
        assert(front[j] == list[j]);
        assert(is_routed(front, j, route));
        assert forall|k: int| #[trigger]
            is_routed(front, k, route) && end_of(spelling(list[j]), false) is Some implies entry_names(
            front[k],
        ) == entry_names(front[j]) by {
            assert(is_routed(list, k, route));
            assert(front[k] == list[k]);
        }
        law_history_names(front, j);
    }
    if entry_route(last) == route {
        lemma_end_of_route(spelling(last), false);
        lemma_names_some(spelling(last), None, false);
        law_accepted_names_agree(
            history(front),
            spelling(last),
            None,
            false,
            last.registration.method,
        );
        assert(is_routed(list, list.len() - 1, route));
        if j == list.len() - 1 {
            if exists|k: int| #[trigger] is_routed(front, k, route) {
                let k = choose|k: int| #[trigger] is_routed(front, k, route);
                assert(front[k] == list[k]);
                assert(is_routed(list, k, route));
                lemma_end_of_route(spelling(list[k]), false);
                lemma_names_some(spelling(list[k]), None, false);
                assert forall|i: int| #[trigger]
                    is_routed(front, i, route) && end_of(spelling(list[k]), false)
                        is Some implies entry_names(front[i]) == entry_names(front[k]) by {
                    assert(is_routed(list, i, route));
                    assert(front[i] == list[i]);
                }
                law_history_names(front, k);
            } else {
                lemma_history_blank(front, route);
            }
        }
    }
}

/// A registration is refused exactly where the same pattern was registered for the method before,
/// as long as the values can be counted. Nothing may follow a catch-all in the pattern, and other
/// patterns for the same route must have been spelled like it.
pub proof fn law_refused_is_inserted<V>(
    list: Seq<Entry<V>>,
    pattern: Seq<char>,
    method: Seq<char>,
)
    requires
        accepted(list),
        !is_full(history(list)),
        ends_well(without_start_slash(pattern), false),
        forall|j: int| #[trigger]
            is_routed(list, j, route_of(without_start_slash(pattern), false)) ==> spelling(list[j])
                == without_start_slash(pattern),
    ensures
        refused(history(list), pattern, method) is Some <==> exists|j: int|
            0 <= j < list.len() && spelling(#[trigger] list[j]) == without_start_slash(pattern)
                && list[j].registration.method == method,
{
    let t = history(list);
    let stripped = without_start_slash(pattern);
    let route = route_of(stripped, false);
    lemma_history_strict(list);
    law_taken_is_inserted(list, route, method);
    if was_inserted(list, route, method) {
        law_taken_is_refused(t, stripped, None, false, method);
        let j = choose|j: int| #[trigger]
            is_routed(list, j, route) && list[j].registration.method == method;
        assert(spelling(list[j]) == stripped);
    } else {
        assert forall|j: int|
            0 <= j < list.len() && spelling(#[trigger] list[j]) == stripped implies list[j].registration.method
            != method by {
            assert(is_routed(list, j, route));
        }
        if exists|j: int| #[trigger] is_routed(list, j, route) {
            let j = choose|j: int| #[trigger] is_routed(list, j, route);
            assert forall|k: int| #[trigger] is_routed(list, k, route) implies entry_names(list[k])
                == entry_names(list[j]) by {
                assert(spelling(list[k]) == stripped);
            }
            law_history_names(list, j);
        } else {
            lemma_history_blank(list, route);
        }
        law_free_is_accepted(t, stripped, None, false, method);
    }
}

/// A handler that a route has was registered for the route, for the method or, if the method is
/// `HEAD`, for `GET`.
pub proof fn law_value_was_registered<V>(list: Seq<Entry<V>>, route: Seq<Symbol>, method: Seq<char>)
    requires
        value_of(held_at(history(list), route).handlers, method) is Some,
    ensures
        exists|j: int| #[trigger]
            is_routed(list, j, route) && Some(list[j].registration.value) == value_of(
                held_at(history(list), route).handlers,
                method,
            ) && serves(list[j].registration, method),
    decreases list.len(),
{
    if list.len() == 0 {
        lemma_held_blank::<V>("/"@, route);
        crate::method::lemma_entry_at(blank_leaf::<V>().handlers, method);
    } else {
        let front = list.drop_last();
        let before = held_at(history(front), route);
        let last = list.last();
        lemma_front(list, route, method);
        lemma_history_step(list, route);
        law_taking_handlers(
            before,
            end_of(spelling(last), false),
            entry_names(last),
            last.registration,
            method,
        );
        if entry_route(last) == route && value_of(held_at(history(list), route).handlers, method)
            == Some(last.registration.value) && serves(last.registration, method) {
            assert(is_routed(list, list.len() - 1, route));
        } else {
            law_value_was_registered(front, route, method);
            let j = choose|j: int| #[trigger]
                is_routed(front, j, route) && Some(front[j].registration.value) == value_of(
                    before.handlers,
                    method,
                ) && serves(front[j].registration, method);
            assert(front[j] == list[j]);
            assert(is_routed(list, j, route));
        }
    }
}

/// Whether a registration can bring a handler for the method.
pub open spec fn serves<V>(r: Registration<V>, method: Seq<char>) -> bool {
    r.method == method || (method == "HEAD"@ && r.method == "GET"@ && r.head_can_use_get)
}

/// What wins a lookup is a pattern that was registered, with its handler. The parameters are what
/// the variables of the pattern match in the path as it stands, decoded, one for each of them and in
/// their order, under the names that the pattern spells; of patterns that end in a catch-all this
/// holds if all patterns of the same route have the same names.
pub proof fn law_winner_names_its_parameters<V>(
    list: Seq<Entry<V>>,
    method: Seq<char>,
    path: Seq<char>,
)
    requires
        accepted(list),
        find(history(list), method, path) is Some,
        find(history(list), method, path)->0.value is Some,
    ensures
        ({
            let h = find(history(list), method, path)->0;
            &&& captures(h.route, path) == Some(h.params)
            &&& exists|j: int| #[trigger]
                is_routed(list, j, h.route) && Some(list[j].registration.value) == h.value && serves(
                    list[j].registration,
                    method,
                )
            &&& forall|j: int| #[trigger]
                is_routed(list, j, h.route) && (end_of(spelling(list[j]), false) is None
                    || forall|k: int| #[trigger]
                    is_routed(list, k, h.route) ==> entry_names(list[k]) == entry_names(list[j]))
                    ==> {
                    let names = listed(entry_names(list[j]));
                    &&& names.len() == h.params.len()
                    &&& zipped(h.names, all_decoded(h.params)) == Seq::new(
                        names.len(),
                        |i: int| (names[i], all_decoded(h.params)[i]),
                    )
                }
        }),
{
    let t = history(list);
    let h = find(t, method, path)->0;
    lemma_history_strict(list);
    law_found_is_registered(t, method, path);
    assert(held_at(t, h.route) == h.leaf);
    law_value_was_registered(list, h.route, method);
    assert forall|j: int| #[trigger]
        is_routed(list, j, h.route) && (end_of(spelling(list[j]), false) is None || forall|k: int|
         #[trigger]
            is_routed(list, k, h.route) ==> entry_names(list[k]) == entry_names(list[j])) implies {
        let names = listed(entry_names(list[j]));
        &&& names.len() == h.params.len()
        &&& zipped(h.names, all_decoded(h.params)) == Seq::new(
            names.len(),
            |i: int| (names[i], all_decoded(h.params)[i]),
        )
    } by {
        let names = listed(entry_names(list[j]));
        law_history_names(list, j);
        lemma_names_and_variables(spelling(list[j]), None, false);
        lemma_captures_and_variables(h.route, path);
        assert(zipped(h.names, all_decoded(h.params)) =~= Seq::new(
            names.len(),
            |i: int| (names[i], all_decoded(h.params)[i]),
        ));
    }
}

} // verus!
