//! Request methods, and tables that hold one value for each method.

use std::sync::Arc;

use vstd::prelude::*;

use crate::text::same_text;

verus! {

/// A request method. What tells two methods apart is their name.
#[derive(Debug)]
pub enum Method {
    OPTIONS,
    GET,
    POST,
    PUT,
    DELETE,
    HEAD,
    TRACE,
    CONNECT,
    PATCH,
    Extension(String),
}

impl View for Method {
    type V = Seq<char>;

    /// The name of the method.
    open spec fn view(&self) -> Seq<char> {
        match self {
            Method::OPTIONS => "OPTIONS"@,
            Method::GET => "GET"@,
            Method::POST => "POST"@,
            Method::PUT => "PUT"@,
            Method::DELETE => "DELETE"@,
            Method::HEAD => "HEAD"@,
            Method::TRACE => "TRACE"@,
            Method::CONNECT => "CONNECT"@,
            Method::PATCH => "PATCH"@,
            Method::Extension(name) => name@,
        }
    }
}

impl Clone for Method {
    fn clone(&self) -> (r: Self)
        ensures
            r == *self,
    {
        match self {
            Method::OPTIONS => Method::OPTIONS,
            Method::GET => Method::GET,
            Method::POST => Method::POST,
            Method::PUT => Method::PUT,
            Method::DELETE => Method::DELETE,
            Method::HEAD => Method::HEAD,
            Method::TRACE => Method::TRACE,
            Method::CONNECT => Method::CONNECT,
            Method::PATCH => Method::PATCH,
            Method::Extension(name) => Method::Extension(name.clone()),
        }
    }
}

impl Method {
    /// The method of the given name.
    pub fn from_name(name: &str) -> (r: Method)
        ensures
            r@ == name@,
    {
        if same_text(name, "OPTIONS") {
            Method::OPTIONS
        } else if same_text(name, "GET") {
            Method::GET
        } else if same_text(name, "POST") {
            Method::POST
        } else if same_text(name, "PUT") {
            Method::PUT
        } else if same_text(name, "DELETE") {
            Method::DELETE
        } else if same_text(name, "HEAD") {
            Method::HEAD
        } else if same_text(name, "TRACE") {
            Method::TRACE
        } else if same_text(name, "CONNECT") {
            Method::CONNECT
        } else if same_text(name, "PATCH") {
            Method::PATCH
        } else {
            Method::Extension(name.to_owned())
        }
    }

    /// The name of the method.
    pub fn as_str(&self) -> (r: &str)
        ensures
            r@ == self@,
    {
        match self {
            Method::OPTIONS => "OPTIONS",
            Method::GET => "GET",
            Method::POST => "POST",
            Method::PUT => "PUT",
            Method::DELETE => "DELETE",
            Method::HEAD => "HEAD",
            Method::TRACE => "TRACE",
            Method::CONNECT => "CONNECT",
            Method::PATCH => "PATCH",
            Method::Extension(name) => name.as_str(),
        }
    }

    /// Whether both methods have the same name.
    pub fn same(&self, other: &Method) -> (r: bool)
        ensures
            r == (self@ == other@),
    {
        same_text(self.as_str(), other.as_str())
    }
}

/// `GET`, `HEAD` and `OPTIONS` are three different names.
pub proof fn lemma_method_names()
    ensures
        "GET"@ != "HEAD"@,
        "GET"@ != "OPTIONS"@,
        "HEAD"@ != "OPTIONS"@,
{
    reveal_strlit("GET");
    reveal_strlit("HEAD");
    reveal_strlit("OPTIONS");
    assert("GET"@.len() == 3);
    assert("HEAD"@.len() == 4);
    assert("OPTIONS"@.len() == 7);
}

/// Where the table holds the method; its length if it does not.
pub open spec fn entry_at<T>(table: Seq<(Seq<char>, T)>, method: Seq<char>) -> nat
    decreases table.len(),
{
    if table.len() == 0 || table[0].0 == method {
        0
    } else {
        1 + entry_at(table.skip(1), method)
    }
}

/// The value that the table holds for the method.
pub open spec fn value_of<T>(table: Seq<(Seq<char>, T)>, method: Seq<char>) -> Option<T> {
    let i = entry_at(table, method);
    if i < table.len() {
        Some(table[i as int].1)
    } else {
        None
    }
}

/// The table with a value set for the method: in its place if the method is there, else at the end.
pub open spec fn put<T>(table: Seq<(Seq<char>, T)>, method: Seq<char>, value: T) -> Seq<
    (Seq<char>, T),
> {
    let i = entry_at(table, method);
    if i < table.len() {
        table.update(i as int, (method, value))
    } else {
        table.push((method, value))
    }
}

/// The table with every entry of the second one set, in their order.
pub open spec fn merged<T>(table: Seq<(Seq<char>, T)>, more: Seq<(Seq<char>, T)>) -> Seq<
    (Seq<char>, T),
>
    decreases more.len(),
{
    if more.len() == 0 {
        table
    } else {
        put(merged(table, more.drop_last()), more.last().0, more.last().1)
    }
}

/// No method has two entries.
pub open spec fn distinct<T>(table: Seq<(Seq<char>, T)>) -> bool {
    forall|i: int, j: int| 0 <= i < j < table.len() ==> (#[trigger] table[i]).0 != (#[trigger] table[j]).0
}

/// The methods of a table, in its order.
pub open spec fn methods_of<T>(table: Seq<(Seq<char>, T)>) -> Seq<Seq<char>> {
    table.map_values(|e: (Seq<char>, T)| e.0)
}

/// What `entry_at` finds is the first entry of the method.
pub proof fn lemma_entry_at<T>(table: Seq<(Seq<char>, T)>, method: Seq<char>)
    ensures
        entry_at(table, method) <= table.len(),
        forall|i: int| 0 <= i < entry_at(table, method) ==> (#[trigger] table[i]).0 != method,
        entry_at(table, method) < table.len() ==> table[entry_at(table, method) as int].0 == method,
    decreases table.len(),
{
    if table.len() > 0 && table[0].0 != method {
        let rest = table.skip(1);
        lemma_entry_at(rest, method);
        assert forall|i: int| 0 <= i < entry_at(table, method) implies (#[trigger] table[i]).0
            != method by {
            if i > 0 {
                assert(rest[i - 1] == table[i]);
            }
        }
        if entry_at(table, method) < table.len() {
            assert(rest[entry_at(rest, method) as int] == table[entry_at(table, method) as int]);
        }
    }
}

/// The first entry of a method determines `entry_at`.
pub proof fn lemma_entry_at_is<T>(table: Seq<(Seq<char>, T)>, method: Seq<char>, n: nat)
    requires
        n <= table.len(),
        forall|i: int| 0 <= i < n ==> (#[trigger] table[i]).0 != method,
        n < table.len() ==> table[n as int].0 == method,
    ensures
        entry_at(table, method) == n,
{
    lemma_entry_at(table, method);
    let k = entry_at(table, method);
    if k < n {
        assert(table[k as int].0 != method);
    } else if n < k {
        assert(table[n as int].0 != method);
    }
}

/// A table gives back what was last set for a method, and leaves the other methods as they were.
pub proof fn law_put_then_value<T>(
    table: Seq<(Seq<char>, T)>,
    method: Seq<char>,
    value: T,
    other: Seq<char>,
)
    ensures
        value_of(put(table, method, value), other) == if other == method {
            Some(value)
        } else {
            value_of(table, other)
        },
{
    let i = entry_at(table, method);
    let after = put(table, method, value);
    lemma_entry_at(table, method);
    lemma_entry_at(table, other);
    let k = entry_at(table, other);
    if other == method {
        lemma_entry_at_is(after, other, i);
    } else if k < table.len() {
        lemma_entry_at_is(after, other, k);
    } else {
        lemma_entry_at_is(after, other, after.len());
    }
}

/// Setting a value keeps the methods distinct.
pub proof fn lemma_put_distinct<T>(table: Seq<(Seq<char>, T)>, method: Seq<char>, value: T)
    requires
        distinct(table),
    ensures
        distinct(put(table, method, value)),
{
    lemma_entry_at(table, method);
    let after = put(table, method, value);
    let n = entry_at(table, method);
    assert forall|i: int, j: int| 0 <= i < j < after.len() implies (#[trigger] after[i]).0 != (
    #[trigger] after[j]).0 by {
        if n < table.len() {
            assert(after[i].0 == table[i].0);
            assert(after[j].0 == table[j].0);
        } else {
            assert(after[i] == table[i]);
        }
    }
}

/// Setting the values of another table keeps the methods distinct.
pub proof fn lemma_merged_distinct<T>(table: Seq<(Seq<char>, T)>, more: Seq<(Seq<char>, T)>)
    requires
        distinct(table),
    ensures
        distinct(merged(table, more)),
        table.len() <= merged(table, more).len() <= table.len() + more.len(),
    decreases more.len(),
{
    if more.len() > 0 {
        lemma_merged_distinct(table, more.drop_last());
        lemma_put_distinct(merged(table, more.drop_last()), more.last().0, more.last().1);
    }
}

/// A merged table gives the value of the second table, and that of the first where the second has
/// none.
pub proof fn law_merged_value<T>(
    table: Seq<(Seq<char>, T)>,
    more: Seq<(Seq<char>, T)>,
    method: Seq<char>,
)
    requires
        distinct(more),
    ensures
        value_of(merged(table, more), method) == match value_of(more, method) {
            Some(value) => Some(value),
            None => value_of(table, method),
        },
    decreases more.len(),
{
    if more.len() > 0 {
        let front = more.drop_last();
        law_merged_value(table, front, method);
        law_put_then_value(merged(table, front), more.last().0, more.last().1, method);
        lemma_entry_at(front, method);
        lemma_entry_at(more, method);
        let k = entry_at(front, method);
        if k < front.len() {
            assert(more[k as int] == front[k as int]);
            assert(more[k as int].0 != more[more.len() - 1].0);
            lemma_entry_at_is(more, method, k);
        } else if more.last().0 == method {
            lemma_entry_at_is(more, method, (more.len() - 1) as nat);
        } else {
            assert forall|i: int| 0 <= i < more.len() implies (#[trigger] more[i]).0 != method by {
                if i < front.len() {
                    assert(more[i] == front[i]);
                }
            }
            lemma_entry_at_is(more, method, more.len());
        }
    } else {
        lemma_entry_at(more, method);
    }
}

/// The value behind a shared pointer.
pub open spec fn held<T>(value: Arc<T>) -> T {
    *value
}

/// A second owner of a shared value.
///
/// Trusted: `Arc::clone` gives a pointer to the same value.
#[verifier::external_body]
pub(crate) fn share<T>(value: &Arc<T>) -> (r: Arc<T>)
    ensures
        *r == **value,
{
    value.clone()
}

/// A table that holds at most one value for each method, in the order in which the methods
/// were first set. A value can be shared between tables.
#[derive(Debug)]
pub struct MethodMap<T> {
    entries: Vec<(Method, Arc<T>)>,
}

/// The names and values of a list of entries.
pub open spec fn table_of<T>(entries: Seq<(Method, Arc<T>)>) -> Seq<(Seq<char>, T)> {
    entries.map_values(|e: (Method, Arc<T>)| (e.0@, *e.1))
}

impl<T> View for MethodMap<T> {
    type V = Seq<(Seq<char>, T)>;

    closed spec fn view(&self) -> Seq<(Seq<char>, T)> {
        table_of(self.entries@)
    }
}

impl<T> MethodMap<T> {
    #[verifier::type_invariant]
    spec fn one_entry_per_method(self) -> bool {
        distinct(self@)
    }

    /// A table without entries.
    pub fn new() -> (r: Self)
        ensures
            r@ == Seq::<(Seq<char>, T)>::empty(),
    {
        let r = MethodMap { entries: Vec::new() };
        assert(r@ =~= Seq::<(Seq<char>, T)>::empty());
        r
    }

    /// The number of methods that the table holds.
    pub fn len(&self) -> (r: usize)
        ensures
            r == self@.len(),
    {
        self.entries.len()
    }

    /// Whether the table holds no method.
    pub fn is_empty(&self) -> (r: bool)
        ensures
            r == (self@.len() == 0),
    {
        self.entries.len() == 0
    }

    fn find(&self, method: &Method) -> (r: usize)
        ensures
            r == entry_at(self@, method@),
            r <= self.entries@.len(),
    {
        let mut i: usize = 0;
        while i < self.entries.len()
            invariant
                i <= self.entries@.len(),
                forall|j: int| 0 <= j < i ==> (#[trigger] self@[j]).0 != method@,
            decreases self.entries@.len() - i,
        {
            if self.entries[i].0.same(method) {
                proof {
                    lemma_entry_at_is(self@, method@, i as nat);
                }
                return i;
            }
            i += 1;
        }
        proof {
            lemma_entry_at_is(self@, method@, i as nat);
        }
        i
    }

    /// The value for the method.
    pub fn get(&self, method: &Method) -> (r: Option<&T>)
        ensures
            match r {
                Some(v) => value_of(self@, method@) == Some(*v),
                None => value_of(self@, method@) is None,
            },
    {
        let i: usize = self.find(method);
        if i < self.entries.len() {
            Some(&*self.entries[i].1)
        } else {
            None
        }
    }

    /// Whether the table holds a value for the method.
    pub fn contains_key(&self, method: &Method) -> (r: bool)
        ensures
            r == (value_of(self@, method@) is Some),
    {
        let i: usize = self.find(method);
        i < self.entries.len()
    }

    /// Sets the value for the method.
    pub fn insert(&mut self, method: Method, value: Arc<T>)
        ensures
            final(self)@ == put(old(self)@, method@, *value),
    {
        let ghost given = held(value);
        proof {
            use_type_invariant(&*self);
            lemma_put_distinct(self@, method@, given);
        }
        let i: usize = self.find(&method);
        let ghost before = self@;
        let ghost name = method@;
        let mut entries: Vec<(Method, Arc<T>)> = Vec::new();
        assert(table_of(entries@) =~= Seq::<(Seq<char>, T)>::empty());
        std::mem::swap(&mut entries, &mut self.entries);
        if i < entries.len() {
            entries.set(i, (method, value));
        } else {
            entries.push((method, value));
        }
        assert(table_of(entries@) =~= put(before, name, given));
        self.entries = entries;
    }

    /// Sets the values of another table, in its order.
    pub fn merge(&mut self, more: &MethodMap<T>)
        ensures
            final(self)@ == merged(old(self)@, more@),
    {
        let mut i: usize = 0;
        let ghost table = more@;
        assert(table.take(0).len() == 0);
        while i < more.entries.len()
            invariant
                i <= more.entries@.len(),
                table == more@,
                self@ == merged(old(self)@, table.take(i as int)),
            decreases more.entries@.len() - i,
        {
            self.insert(more.entries[i].0.clone(), share(&more.entries[i].1));
            assert(table.take(i + 1).drop_last() =~= table.take(i as int));
            i += 1;
        }
        assert(table.take(i as int) =~= table);
    }

    /// The methods that the table holds, each once.
    pub fn keys(&self) -> (r: Vec<Method>)
        ensures
            names_of(r@) == methods_of(self@),
            names_of(r@).no_duplicates(),
    {
        proof {
            use_type_invariant(self);
        }
        let mut out: Vec<Method> = Vec::new();
        let mut i: usize = 0;
        while i < self.entries.len()
            invariant
                i <= self.entries@.len(),
                out@.len() == i,
                forall|j: int| 0 <= j < i ==> (#[trigger] out@[j])@ == self@[j].0,
            decreases self.entries@.len() - i,
        {
            out.push(self.entries[i].0.clone());
            i += 1;
        }
        assert(names_of(out@) =~= methods_of(self@));
        out
    }
}

/// The names of a list of methods.
pub open spec fn names_of(list: Seq<Method>) -> Seq<Seq<char>> {
    list.map_values(|m: Method| m@)
}

/// A list of texts written one after the other, with a separator between two of them.
pub open spec fn joined(list: Seq<Seq<char>>, separator: Seq<char>) -> Seq<char>
    decreases list.len(),
{
    if list.len() == 0 {
        Seq::empty()
    } else if list.len() == 1 {
        list[0]
    } else {
        joined(list.drop_last(), separator) + separator + list.last()
    }
}

/// Writes the names of methods one after the other.
pub fn join_names(list: &[Method], separator: &str) -> (r: String)
    ensures
        r@ == joined(names_of(list@), separator@),
{
    let mut out: String = String::new();
    let mut i: usize = 0;
    let ghost names = names_of(list@);
    assert(out@ =~= joined(names.take(0), separator@));
    while i < list.len()
        invariant
            i <= list@.len(),
            names == names_of(list@),
            out@ == joined(names.take(i as int), separator@),
        decreases list@.len() - i,
    {
        let ghost before = out@;
        if i > 0 {
            out.append(separator);
        }
        out.append(list[i].as_str());
        assert(names.take(i + 1).drop_last() =~= names.take(i as int));
        assert(names.take(i + 1).last() == list@[i as int]@);
        assert(out@ =~= joined(names.take(i + 1), separator@));
        i += 1;
    }
    assert(names.take(i as int) =~= names);
    out
}

/// The methods that a path accepts.
#[derive(Debug, Clone)]
pub struct AllowedMethods(pub Vec<Method>);

impl AllowedMethods {
    /// The methods, each once.
    pub fn methods(&self) -> (r: &[Method])
        ensures
            r@ == self.0@,
    {
        self.0.as_slice()
    }

    /// The value of the `Allow` header that names these methods.
    pub fn header_value(&self) -> (r: String)
        ensures
            r@ == joined(names_of(self.0@), ", "@),
    {
        join_names(self.methods(), ", ")
    }
}

} // verus!
