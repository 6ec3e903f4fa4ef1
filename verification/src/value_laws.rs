//! What tables, lists, parameters and numbers hold, entry by entry.

use vstd::prelude::*;

use crate::decode::{all_decoded, decoded, percent_decoded};
use crate::dump::{child_listings, decimal, line, listing, two_digits};
use crate::exact::{is_for, place_of};
use crate::method::{
    distinct, joined, lemma_entry_at, lemma_entry_at_is, methods_of, names_of, value_of,
    AllowedMethods, Method,
};
use crate::middleware::{log_level, LogLevel};
use crate::model::{Hit, Tree};
use crate::mux::redirect_content_type;
use crate::params::{zipped, Params};
use crate::text::texts;
use crate::tree::{names_view, Handler, HandlerConfig, Match};

verus! {

/// A table gives for a method the value of its entry, and nothing for a method without one.
pub proof fn law_table_value<T>(table: Seq<(Seq<char>, T)>, method: Seq<char>)
    requires
        distinct(table),
    ensures
        forall|i: int|
            0 <= i < table.len() ==> value_of(table, (#[trigger] table[i]).0) == Some(table[i].1),
        (forall|i: int| 0 <= i < table.len() ==> (#[trigger] table[i]).0 != method) ==> value_of(
            table,
            method,
        ) is None,
        forall|i: int, j: int|
            0 <= i < j < table.len() ==> (#[trigger] table[i]).0 != (#[trigger] table[j]).0,
{
    lemma_entry_at(table, method);
    assert forall|i: int| 0 <= i < table.len() implies value_of(table, (#[trigger] table[i]).0)
        == Some(table[i].1) by {
        lemma_entry_at_is(table, table[i].0, i as nat);
    }
}

/// The methods of a table are those of its entries, in their order.
pub proof fn law_methods_of<T>(table: Seq<(Seq<char>, T)>)
    ensures
        methods_of(table).len() == table.len(),
        forall|i: int| 0 <= i < table.len() ==> #[trigger] methods_of(table)[i] == table[i].0,
{
}

/// The name of a method is the name it is written with, and that of another method the one given.
pub proof fn law_method_name(name: String)
    ensures
        Method::OPTIONS@ == "OPTIONS"@,
        Method::GET@ == "GET"@,
        Method::POST@ == "POST"@,
        Method::PUT@ == "PUT"@,
        Method::DELETE@ == "DELETE"@,
        Method::HEAD@ == "HEAD"@,
        Method::TRACE@ == "TRACE"@,
        Method::CONNECT@ == "CONNECT"@,
        Method::PATCH@ == "PATCH"@,
        Method::Extension(name)@ == name@,
{
}

/// Texts are joined one behind the other, with the separator between two of them only.
pub proof fn law_joined(list: Seq<Seq<char>>, text: Seq<char>, separator: Seq<char>)
    ensures
        joined(Seq::empty(), separator) == Seq::<char>::empty(),
        joined(seq![text], separator) == text,
        list.len() > 0 ==> joined(list.push(text), separator) == joined(list, separator) + separator
            + text,
{
    assert(list.push(text).drop_last() =~= list);
}

/// The header that names the allowed methods joins their names by a comma and a space.
pub proof fn law_header_value(allowed: AllowedMethods, r: String)
    requires
        call_ensures(AllowedMethods::header_value, (&allowed,), r),
    ensures
        r@ == joined(names_of(allowed.0@), seq![',', ' ']),
        names_of(allowed.0@).len() == allowed.0@.len(),
        forall|i: int|
            0 <= i < allowed.0@.len() ==> #[trigger] names_of(allowed.0@)[i] == allowed.0@[i]@,
{
    reveal_strlit(", ");
    assert(", "@ =~= seq![',', ' ']);
}

/// The texts of a list of strings.
pub proof fn law_texts(list: Seq<String>, names: Vec<String>)
    ensures
        texts(list).len() == list.len(),
        forall|i: int| 0 <= i < list.len() ==> #[trigger] texts(list)[i] == list[i]@,
        names_view(Some(names)) == Some(texts(names@)),
        names_view(None) is None,
{
}

/// Names are paired with values, one with one, as far as there are both.
pub proof fn law_zipped(names: Seq<Seq<char>>, values: Seq<Seq<char>>)
    ensures
        names.len() <= values.len() ==> zipped(names, values).len() == names.len(),
        values.len() <= names.len() ==> zipped(names, values).len() == values.len(),
        forall|i: int|
            0 <= i < names.len() && i < values.len() ==> #[trigger] zipped(names, values)[i] == (
                names[i],
                values[i],
            ),
{
}

/// Every text of a list is decoded.
pub proof fn law_all_decoded(list: Seq<Seq<char>>)
    ensures
        all_decoded(list).len() == list.len(),
        forall|i: int|
            0 <= i < list.len() ==> #[trigger] all_decoded(list)[i] == percent_decoded(list[i]),
{
}

/// Decoding changes nothing of what was found but the parameters and what a catch-all matched.
pub proof fn law_decoded<V>(h: Hit<V>)
    ensures
        decoded(h) == (Hit {
            params: decoded(h).params,
            pattern: decoded(h).pattern,
            ..h
        }),
        decoded(h).params.len() == h.params.len(),
        forall|i: int|
            0 <= i < h.params.len() ==> #[trigger] decoded(h).params[i] == percent_decoded(
                h.params[i],
            ),
        decoded(h).pattern == if h.leaf.catch_all is Some {
            percent_decoded(h.pattern)
        } else {
            h.pattern
        },
{
}

/// The parameters are the keys and values of the list, in its order.
pub proof fn law_params_shown(params: Params)
    ensures
        params@.len() == params.0@.len(),
        forall|i: int|
            0 <= i < params@.len() ==> #[trigger] params@[i] == (
                params.0@[i].key@,
                params.0@[i].value@,
            ),
{
}

/// The value that is found by a key is that of the first parameter with the key.
pub proof fn law_params_get(params: Params, name: &str, r: Option<&str>, i: int)
    requires
        call_ensures(Params::get, (&params, name), r),
        r is Some,
        0 <= i < params.0@.len(),
        params.0@[i].key@ == name@,
        forall|j: int| 0 <= j < i ==> (#[trigger] params.0@[j]).key@ != name@,
    ensures
        r->0@ == params.0@[i].value@,
{
    law_params_shown(params);
    assert(params@[i].0 == name@);
    let k = choose|k: int|
        {
            &&& 0 <= k < params@.len()
            &&& #[trigger] params@[k] == (name@, r->0@)
            &&& forall|j: int| 0 <= j < k ==> (#[trigger] params@[j]).0 != name@
        };
    if k < i {
        assert(params.0@[k].key@ != name@);
    } else if i < k {
        assert(params@[i].0 != name@);
    }
}

/// Nothing is found by a name that is no key.
pub proof fn law_params_get_none(params: Params, name: &str, r: Option<&str>)
    requires
        call_ensures(Params::get, (&params, name), r),
        forall|j: int| 0 <= j < params.0@.len() ==> (#[trigger] params.0@[j]).key@ != name@,
    ensures
        r is None,
{
    law_params_shown(params);
    if r is Some {
        let k = choose|k: int|
            {
                &&& 0 <= k < params@.len()
                &&& #[trigger] params@[k] == (name@, r->0@)
                &&& forall|j: int| 0 <= j < k ==> (#[trigger] params@[j]).0 != name@
            };
        assert(params.0@[k].key@ != name@);
    }
}

/// What is registered is what a handler and a configuration hold.
pub proof fn law_registration_of<'a, V>(handler: Handler<V>, config: HandlerConfig<'a, V>)
    ensures
        handler.registration().method == handler.method@,
        handler.registration().value == *handler.value,
        handler.registration().head_can_use_get == handler.head_can_use_get,
        handler.registration().add_slash == handler.add_slash,
        config.registration().method == config.method@,
        config.registration().value == config.value,
        config.registration().head_can_use_get == config.head_can_use_get,
        config.registration().add_slash == config.add_slash,
{
}

/// A match holds what was found.
pub proof fn law_match_shows<'a, V>(found: Match<'a, V>, h: Hit<V>)
    requires
        found.shows(h),
    ensures
        found.value is Some <==> h.value is Some,
        found.value is Some ==> *found.value->0 == h.value->0,
        found.params@.len() == h.params.len(),
        forall|i: int| 0 <= i < h.params.len() ==> #[trigger] h.params[i] == found.params@[i]@,
        found.param_names@.len() == h.names.len(),
        forall|i: int| 0 <= i < h.names.len() ==> #[trigger] h.names[i] == found.param_names@[i]@,
        found.add_slash == h.leaf.add_slash,
        found.is_catch_all == (h.leaf.catch_all is Some),
        found.implicit_head == h.leaf.implicit_head,
        found.leaf_handler@ == h.leaf.handlers,
        found.path@ == h.path,
        found.pattern@ == h.pattern,
{
    assert(texts(found.params@).len() == found.params@.len());
    assert(texts(found.param_names@).len() == found.param_names@.len());
    assert forall|i: int| 0 <= i < h.params.len() implies #[trigger] h.params[i]
        == found.params@[i]@ by {
        assert(texts(found.params@)[i] == found.params@[i]@);
    }
    assert forall|i: int| 0 <= i < h.names.len() implies #[trigger] h.names[i]
        == found.param_names@[i]@ by {
        assert(texts(found.param_names@)[i] == found.param_names@[i]@);
    }
}

/// A request that was answered with success is logged as information, every other answered request
/// as a warning, and a failure as an error.
pub proof fn law_log_level(status: Option<u16>, r: LogLevel)
    requires
        call_ensures(log_level, (status,), r),
    ensures
        r == LogLevel::Error <==> status is None,
        r == LogLevel::Info <==> status is Some && status->0 / 100 == 2,
        r == LogLevel::Warn <==> status is Some && status->0 / 100 != 2,
{
}

/// The content type of a redirect is that of the request, whatever it is, and else that of a page.
pub proof fn law_content_type(requested: Option<String>, r: String)
    requires
        call_ensures(redirect_content_type, (requested,), r),
    ensures
        requested is Some ==> r@ == requested->0@,
        requested is None ==> r@ == "text/html; charset=utf-8"@,
{
}

/// The entry for a method and a path is the first one that has them; where there is none, the place
/// is behind all entries.
pub proof fn law_exact_place<T>(
    routes: Seq<(Method, String, T)>,
    method: Seq<char>,
    path: Seq<char>,
)
    ensures
        place_of(routes, method, path) <= routes.len(),
        forall|j: int|
            0 <= j < place_of(routes, method, path) ==> (#[trigger] routes[j]).0@ != method
                || routes[j].1@ != path,
        place_of(routes, method, path) < routes.len() ==> {
            let entry = routes[place_of(routes, method, path) as int];
            entry.0@ == method && entry.1@ == path
        },
    decreases routes.len(),
{
    if routes.len() > 0 {
        let front = routes.drop_last();
        law_exact_place(front, method, path);
        assert forall|j: int| 0 <= j < place_of(routes, method, path) implies (
        #[trigger] routes[j]).0@ != method || routes[j].1@ != path by {
            if j < front.len() {
                assert(front[j] == routes[j]);
                assert(!is_for(front[j], method, path));
            } else {
                assert(routes[j] == routes.last());
            }
        }
    }
}

/// A value that was set for a method and a path is found by them, and what is found by others stays.
pub proof fn law_exact_insert<T>(
    before: Seq<(Method, String, T)>,
    after: Seq<(Method, String, T)>,
    method: Method,
    path: String,
    value: T,
    other_method: Seq<char>,
    other_path: Seq<char>,
)
    requires
        ({
            let i = place_of(before, method@, path@) as int;
            if i < before.len() {
                after == before.update(i, (method, path, value))
            } else {
                after == before.push((method, path, value))
            }
        }),
    ensures
        ({
            let i = place_of(after, method@, path@) as int;
            &&& i < after.len()
            &&& after[i].2 == value
        }),
        other_method != method@ || other_path != path@ ==> {
            let i = place_of(before, other_method, other_path) as int;
            let j = place_of(after, other_method, other_path) as int;
            &&& i < before.len() <==> j < after.len()
            &&& i < before.len() ==> after[j] == before[i]
        },
{
    let at = place_of(before, method@, path@) as int;
    law_exact_place(before, method@, path@);
    law_exact_place(after, method@, path@);
    law_exact_place(before, other_method, other_path);
    law_exact_place(after, other_method, other_path);
    let k = place_of(after, method@, path@) as int;
    assert(after[at] == (method, path, value));
    if k < at {
        assert(after[k] == before[k]);
    } else if at < k {
        assert(after[at].0@ != method@ || after[at].1@ != path@);
    }
    if other_method != method@ || other_path != path@ {
        let i = place_of(before, other_method, other_path) as int;
        let j = place_of(after, other_method, other_path) as int;
        if j < after.len() {
            assert(j != at);
            assert(after[j] == before[j]);
        }
        if i < before.len() {
            assert(i != at);
            assert(after[i] == before[i]);
        }
        if i < j && i < before.len() {
            assert(after[i].0@ != other_method || after[i].1@ != other_path);
        }
        if j < i && j < after.len() {
            assert(before[j].0@ != other_method || before[j].1@ != other_path);
        }
    }
}

/// The number that decimal digits stand for.
pub open spec fn number(digits: Seq<char>) -> int
    decreases digits.len(),
{
    if digits.len() == 0 {
        0
    } else {
        10 * number(digits.drop_last()) + (digits.last() as int - 48)
    }
}

/// A number is written in decimal digits, and only zero begins with a zero.
pub proof fn law_decimal(n: nat)
    ensures
        number(decimal(n)) == n,
        decimal(n).len() > 0,
        forall|i: int| 0 <= i < decimal(n).len() ==> '0' <= #[trigger] decimal(n)[i] <= '9',
        n > 0 ==> decimal(n)[0] != '0',
    decreases n,
{
    reveal_strlit("0123456789");
    let digits = "0123456789"@;
    let last: int = (n % 10) as int;
    assert(digits[0] == '0' && digits[1] == '1' && digits[2] == '2' && digits[3] == '3' && digits[4]
        == '4' && digits[5] == '5' && digits[6] == '6' && digits[7] == '7' && digits[8] == '8'
        && digits[9] == '9');
    assert(digits[last] as int == 48 + last);
    if n < 10 {
        assert(decimal(n).drop_last() =~= Seq::<char>::empty());
        assert(number(Seq::<char>::empty()) == 0);
        assert(number(decimal(n)) == 10 * number(decimal(n).drop_last()) + (decimal(n).last() as int
            - 48));
    } else {
        law_decimal(n / 10);
        assert(decimal(n).drop_last() =~= decimal(n / 10));
        assert(decimal(n)[0] == decimal(n / 10)[0]);
        assert forall|i: int| 0 <= i < decimal(n).len() implies '0' <= #[trigger] decimal(n)[i]
            <= '9' by {
            if i < decimal(n / 10).len() {
                assert(decimal(n)[i] == decimal(n / 10)[i]);
            }
        }
    }
}

/// A priority is written in two digits at least.
pub proof fn law_two_digits(n: nat)
    ensures
        n < 10 ==> two_digits(n) == seq!['0'] + decimal(n),
        n >= 10 ==> two_digits(n) == decimal(n),
{
    reveal_strlit("0");
    assert("0"@ =~= seq!['0']);
}

/// A tree is written out a line for each node: the root's own, then what is below it two spaces
/// further in, the static children in their order, then the wildcard, then the catch-all.
pub proof fn law_listing<V>(t: Tree<V>, prefix: Seq<char>, node_type: Seq<char>, n: nat)
    ensures
        t.wildcard is None && t.catch_all is None && t.children.len() == 0 ==> listing(
            t,
            prefix,
            node_type,
        ) == line(t, prefix, node_type),
        t.wildcard is Some ==> listing(t, prefix, node_type) == line(t, prefix, node_type)
            + child_listings(t, t.children.len(), prefix + seq![' ', ' ']) + listing(
            *t.wildcard->0,
            prefix + seq![' ', ' '],
            seq![':'],
        ) + (if t.catch_all is Some {
            listing(*t.catch_all->0, prefix + seq![' ', ' '], seq!['*'])
        } else {
            Seq::empty()
        }),
        t.wildcard is None ==> listing(t, prefix, node_type) == line(t, prefix, node_type)
            + child_listings(t, t.children.len(), prefix + seq![' ', ' ']) + (if t.catch_all
            is Some {
            listing(*t.catch_all->0, prefix + seq![' ', ' '], seq!['*'])
        } else {
            Seq::empty()
        }),
        n < t.children.len() ==> child_listings(t, n + 1, prefix) == child_listings(t, n, prefix)
            + listing(t.children[n as int], prefix, Seq::empty()),
        child_listings(t, 0, prefix) == Seq::<char>::empty(),
{
    reveal_strlit("  ");
    reveal_strlit(":");
    reveal_strlit("*");
    reveal_strlit("");
    assert("  "@ =~= seq![' ', ' ']);
    assert(":"@ =~= seq![':']);
    assert("*"@ =~= seq!['*']);
    assert(""@ =~= Seq::<char>::empty());
    let own = line(t, prefix, node_type);
    let below = child_listings(t, t.children.len(), prefix + seq![' ', ' ']);
    assert(own + below + Seq::<char>::empty() =~= own + below);
    if t.children.len() == 0 {
        assert(own + below =~= own);
    }
    if t.catch_all is None && t.wildcard is None {
        assert(own + below + Seq::<char>::empty() + Seq::<char>::empty() =~= own + below
            + Seq::<char>::empty());
    }
}

/// The line of a node begins with the prefix, a space and the priority, then gives the kind and the
/// path of the node, the number of its static children, its methods and its names.
pub proof fn law_line<V>(t: Tree<V>, prefix: Seq<char>, node_type: Seq<char>)
    ensures
        line(t, prefix, node_type) == prefix + line(t, Seq::empty(), node_type),
        (prefix + seq![' '] + two_digits(t.priority) + seq![' '] + node_type + t.path + seq![
            ' ',
            '[',
        ] + decimal(t.children.len()) + seq![']', ' '] + joined(
            methods_of(t.leaf.handlers),
            seq![','],
        ) + seq![' ']).is_prefix_of(line(t, prefix, node_type)),
        line(t, prefix, node_type).last() == '\n',
{
    reveal_strlit(" ");
    reveal_strlit(" [");
    reveal_strlit("] ");
    reveal_strlit(",");
    reveal_strlit(" wildcards ");
    reveal_strlit("\n");
    assert(" "@ =~= seq![' ']);
    assert(" ["@ =~= seq![' ', '[']);
    assert("] "@ =~= seq![']', ' ']);
    assert(","@ =~= seq![',']);
    assert(line(t, prefix, node_type) =~= prefix + line(t, Seq::empty(), node_type));
    let whole = line(t, prefix, node_type);
    let front = prefix + seq![' '] + two_digits(t.priority) + seq![' '] + node_type + t.path + seq![
        ' ',
        '[',
    ] + decimal(t.children.len()) + seq![']', ' '] + joined(methods_of(t.leaf.handlers), seq![',']);
    assert(" wildcards "@[0] == ' ');
    assert((front + seq![' ']) =~= whole.subrange(0, (front.len() + 1) as int));
}

} // verus!
