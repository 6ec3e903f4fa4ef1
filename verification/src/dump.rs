//! A tree written out, one line for each node.

use vstd::prelude::*;

use crate::method::{joined, methods_of};
use crate::model::Tree;
use crate::text::join;
use crate::tree::names_view;

verus! {

/// A number in decimal digits.
pub open spec fn decimal(n: nat) -> Seq<char>
    decreases n,
{
    if n < 10 {
        seq!["0123456789"@[n as int]]
    } else {
        decimal(n / 10).push("0123456789"@[(n % 10) as int])
    }
}

/// A number in decimal digits, at least two of them.
pub open spec fn two_digits(n: nat) -> Seq<char> {
    if n < 10 {
        "0"@ + decimal(n)
    } else {
        decimal(n)
    }
}

/// Writes a number in decimal digits.
pub fn write_decimal(n: usize) -> (r: String)
    ensures
        r@ == decimal(n as nat),
    decreases n,
{
    proof {
        reveal_strlit("0123456789");
    }
    let digit = "0123456789".substring_char(n % 10, n % 10 + 1);
    assert(digit@ =~= seq!["0123456789"@[(n % 10) as int]]);
    if n < 10 {
        digit.to_owned()
    } else {
        let r = join(write_decimal(n / 10).as_str(), digit);
        assert(r@ =~= decimal(n as nat));
        r
    }
}

/// Writes a number in at least two decimal digits.
pub fn write_two_digits(n: usize) -> (r: String)
    ensures
        r@ == two_digits(n as nat),
{
    if n < 10 {
        join("0", write_decimal(n).as_str())
    } else {
        write_decimal(n)
    }
}

/// Whether a name is made of printable ASCII characters other than quotes and backslashes.
pub open spec fn is_plain_name(name: Seq<char>) -> bool {
    forall|i: int|
        0 <= i < name.len() ==> {
            let c = #[trigger] name[i];
            ' ' <= c <= '~' && c != '"' && c != '\'' && c != '\\'
        }
}

/// A name in quotes.
pub open spec fn quoted(name: Seq<char>) -> Seq<char> {
    "\""@ + name + "\""@
}

/// A list of names as it is shown: plain names as they are, and otherwise as given.
pub open spec fn shown(names: Option<Seq<Seq<char>>>, otherwise: Seq<char>) -> Seq<char> {
    match names {
        None => "None"@,
        Some(list) => if forall|i: int| 0 <= i < list.len() ==> is_plain_name(#[trigger] list[i]) {
            "Some(["@ + joined(list.map_values(|name: Seq<char>| quoted(name)), ", "@) + "])"@
        } else {
            otherwise
        },
    }
}

/// The debug form of a list of names.
pub uninterp spec fn debug_form(names: Option<Seq<Seq<char>>>) -> Seq<char>;

/// Writes a list of names in its debug form.
///
/// Trusted: what `std::fmt::Debug` writes for a list of strings depends on the strings alone. It
/// writes that there is no list, and a list of strings of printable ASCII characters, but for quotes
/// and backslashes, with the strings in quotes. How it escapes other characters is only named.
#[verifier::external_body]
pub(crate) fn write_debug(names: &Option<Vec<String>>) -> (r: String)
    ensures
        r@ == debug_form(names_view(*names)),
        r@ == shown(names_view(*names), debug_form(names_view(*names))),
{
    format!("{:?}", names)
}

/// The line of one node.
pub open spec fn line<V>(t: Tree<V>, prefix: Seq<char>, node_type: Seq<char>) -> Seq<char> {
    prefix + " "@ + two_digits(t.priority) + " "@ + node_type + t.path + " ["@ + decimal(
        t.children.len(),
    ) + "] "@ + joined(methods_of(t.leaf.handlers), ","@) + " wildcards "@ + shown(
        t.leaf.names,
        debug_form(t.leaf.names),
    ) + "\n"@
}

/// The lines of the first `n` static children and of what is below them.
pub open spec fn child_listings<V>(t: Tree<V>, n: nat, prefix: Seq<char>) -> Seq<char>
    decreases t, n,
{
    if 0 < n <= t.children.len() {
        child_listings(t, (n - 1) as nat, prefix) + listing(t.children[n - 1], prefix, ""@)
    } else {
        Seq::empty()
    }
}

/// The lines of a tree: its root's, then those of its static children, of its wildcard and of its
/// catch-all, two spaces further in.
pub open spec fn listing<V>(t: Tree<V>, prefix: Seq<char>, node_type: Seq<char>) -> Seq<char>
    decreases t, t.children.len() + 1,
{
    let inner = prefix + "  "@;
    line(t, prefix, node_type) + child_listings(t, t.children.len(), inner) + (match t.wildcard {
        Some(w) => listing(*w, inner, ":"@),
        None => Seq::empty(),
    }) + (match t.catch_all {
        Some(c) => listing(*c, inner, "*"@),
        None => Seq::empty(),
    })
}

} // verus!
