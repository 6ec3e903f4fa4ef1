//! Parameters of a matched route.

use std::borrow::Cow;

use vstd::prelude::*;
use vstd::std_specs::convert::FromSpecImpl;

use crate::text::{cow_text, same_text};

verus! {

/// A single URL parameter, consisting of a key and a value.
#[derive(Debug, Clone, PartialEq)]
pub struct Param {
    pub key: String,
    pub value: String,
}

/// The key and the value of a parameter.
pub open spec fn pair_of(p: Param) -> (Seq<char>, Seq<char>) {
    (p.key@, p.value@)
}

impl Param {
    /// The parameter of that key and value.
    pub fn new(key: String, value: String) -> (r: Self)
        ensures
            r.key == key,
            r.value == value,
    {
        Param { key, value }
    }
}

impl<'a> From<(&'a str, &'a str)> for Param {
    fn from(input: (&'a str, &'a str)) -> (r: Self)
        ensures
            pair_of(r) == (input.0@, input.1@),
    {
        Param::new(input.0.to_owned(), input.1.to_owned())
    }
}

impl<'a> FromSpecImpl<(&'a str, &'a str)> for Param {
    open spec fn obeys_from_spec() -> bool {
        false
    }

    open spec fn from_spec(input: (&'a str, &'a str)) -> Param {
        arbitrary()
    }
}

impl<'a, 'b> From<(&'a Cow<'b, str>, &'a Cow<'b, str>)> for Param where 'b: 'a {
    fn from(input: (&'a Cow<'b, str>, &'a Cow<'b, str>)) -> (r: Self)
        ensures
            pair_of(r) == (input.0@, input.1@),
    {
        Param::new(cow_text(input.0).to_owned(), cow_text(input.1).to_owned())
    }
}

impl<'a, 'b> FromSpecImpl<(&'a Cow<'b, str>, &'a Cow<'b, str>)> for Param where 'b: 'a {
    open spec fn obeys_from_spec() -> bool {
        false
    }

    open spec fn from_spec(input: (&'a Cow<'b, str>, &'a Cow<'b, str>)) -> Param {
        arbitrary()
    }
}

impl<'a> From<(Cow<'a, str>, Cow<'a, str>)> for Param {
    fn from(input: (Cow<'a, str>, Cow<'a, str>)) -> (r: Self)
        ensures
            pair_of(r) == (input.0@, input.1@),
    {
        Param::new(cow_text(&input.0).to_owned(), cow_text(&input.1).to_owned())
    }
}

impl<'a> FromSpecImpl<(Cow<'a, str>, Cow<'a, str>)> for Param {
    open spec fn obeys_from_spec() -> bool {
        false
    }

    open spec fn from_spec(input: (Cow<'a, str>, Cow<'a, str>)) -> Param {
        arbitrary()
    }
}

/// The parameters of a route match, in the order in which they stand in the path.
#[derive(Debug, Clone, PartialEq)]
pub struct Params(pub Vec<Param>);

impl View for Params {
    type V = Seq<(Seq<char>, Seq<char>)>;

    /// The keys and values.
    open spec fn view(&self) -> Seq<(Seq<char>, Seq<char>)> {
        self.0@.map_values(|p: Param| pair_of(p))
    }
}

impl Default for Params {
    fn default() -> (r: Self)
        ensures
            r@ == Seq::<(Seq<char>, Seq<char>)>::empty(),
    {
        let r = Params(Vec::new());
        assert(r@ =~= Seq::<(Seq<char>, Seq<char>)>::empty());
        r
    }
}

impl core::ops::Index<usize> for Params {
    type Output = Param;

    fn index(&self, i: usize) -> (r: &Param)
        ensures
            *r == self.0@[i as int],
    {
        &self.0[i]
    }
}

impl vstd::std_specs::core::IndexSpecImpl<usize> for Params {
    open spec fn index_req(&self, i: &usize) -> bool {
        *i < self.0@.len()
    }
}

impl Params {
    /// The parameters that a list of pairs gives, in its order.
    pub fn from_iter<P: Into<Param>>(items: Vec<P>) -> (r: Self)
        ensures
            r.0@.len() == items@.len(),
            forall|i: int|
                0 <= i < items@.len() ==> call_ensures(P::into, (items@[i],), #[trigger] r.0@[i]),
    {
        let mut out: Vec<Param> = Vec::new();
        let ghost given = items@;
        for item in iter: items
            invariant
                iter.seq() == given,
                out@.len() == iter.index(),
                forall|i: int|
                    0 <= i < out@.len() ==> call_ensures(P::into, (given[i],), #[trigger] out@[i]),
        {
            out.push(item.into());
        }
        Params(out)
    }

    /// The value of the first parameter whose key is the given name.
    pub fn get(&self, name: &str) -> (r: Option<&str>)
        ensures
            match r {
                Some(v) => exists|i: int|
                    {
                        &&& 0 <= i < self@.len()
                        &&& #[trigger] self@[i] == (name@, v@)
                        &&& forall|j: int| 0 <= j < i ==> (#[trigger] self@[j]).0 != name@
                    },
                None => forall|i: int| 0 <= i < self@.len() ==> (#[trigger] self@[i]).0 != name@,
            },
    {
        let mut i: usize = 0;
        while i < self.0.len()
            invariant
                i <= self.0@.len(),
                forall|j: int| 0 <= j < i ==> (#[trigger] self@[j]).0 != name@,
            decreases self.0@.len() - i,
        {
            if same_text(self.0[i].key.as_str(), name) {
                assert(self@[i as int] == (name@, self.0@[i as int].value@));
                return Some(self.0[i].value.as_str());
            }
            i += 1;
        }
        None
    }

    /// Whether there are no parameters.
    pub fn is_empty(&self) -> (r: bool)
        ensures
            r == (self@.len() == 0),
    {
        self.0.len() == 0
    }

    /// Inserts a URL parameter into the vector.
    pub fn push<P: Into<Param>>(&mut self, p: P)
        ensures
            final(self).0@.len() == old(self).0@.len() + 1,
            final(self).0@.drop_last() == old(self).0@,
            call_ensures(P::into, (p,), final(self).0@.last()),
    {
        let param = p.into();
        self.0.push(param);
        assert(self.0@.drop_last() =~= old(self).0@);
    }

    /// The number of parameters.
    pub fn len(&self) -> (r: usize)
        ensures
            r == self@.len(),
    {
        self.0.len()
    }

    /// The first parameter.
    pub fn first(&self) -> (r: Option<&Param>)
        ensures
            match r {
                Some(p) => self.0@.len() > 0 && *p == self.0@[0],
                None => self.0@.len() == 0,
            },
    {
        if self.0.len() == 0 {
            None
        } else {
            Some(&self.0[0])
        }
    }

    /// The parameter at a position, to be changed in place.
    pub fn index_mut(&mut self, i: usize) -> (r: &mut Param)
        requires
            i < old(self).0@.len(),
        ensures
            *r == old(self).0@[i as int],
            final(self).0@ == old(self).0@.update(i as int, *final(r)),
    {
        &mut self.0[i]
    }
}

/// The names paired with the values, as far as there are both.
pub open spec fn zipped(names: Seq<Seq<char>>, values: Seq<Seq<char>>) -> Seq<
    (Seq<char>, Seq<char>),
> {
    let n = if names.len() <= values.len() {
        names.len()
    } else {
        values.len()
    };
    Seq::new(n, |i: int| (names[i], values[i]))
}

/// Pairs names with values, as far as there are both.
pub fn zip_params(names: &Vec<String>, values: &Vec<String>) -> (r: Params)
    ensures
        r@ == zipped(crate::text::texts(names@), crate::text::texts(values@)),
{
    let mut out: Vec<Param> = Vec::new();
    let mut i: usize = 0;
    while i < names.len() && i < values.len()
        invariant
            i <= names@.len(),
            i <= values@.len(),
            out@.len() == i,
            forall|j: int|
                0 <= j < i ==> pair_of(#[trigger] out@[j]) == (names@[j]@, values@[j]@),
        decreases names@.len() - i,
    {
        out.push(Param::new(names[i].clone(), values[i].clone()));
        i += 1;
    }
    let r = Params(out);
    assert(r@ =~= zipped(crate::text::texts(names@), crate::text::texts(values@)));
    r
}

} // verus!
