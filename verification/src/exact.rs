//! Routing by method and whole path, without patterns.

use vstd::prelude::*;

use crate::method::Method;
use crate::text::same_text;

verus! {

/// Values by method and path, and one for all other requests.
#[derive(Debug)]
pub struct ExactRoutes<T> {
    pub routes: Vec<(Method, String, T)>,
    pub fallback: T,
}

/// Whether an entry is for the method and the path.
pub open spec fn is_for<T>(
    entry: (Method, String, T),
    method: Seq<char>,
    path: Seq<char>,
) -> bool {
    entry.0@ == method && entry.1@ == path
}

/// Where the entry for a method and a path stands; the number of entries if there is none.
pub open spec fn place_of<T>(
    routes: Seq<(Method, String, T)>,
    method: Seq<char>,
    path: Seq<char>,
) -> nat
    decreases routes.len(),
{
    if routes.len() == 0 {
        0
    } else {
        let k = place_of(routes.drop_last(), method, path);
        if k < routes.len() - 1 || is_for(routes.last(), method, path) {
            k
        } else {
            routes.len()
        }
    }
}

impl<T> ExactRoutes<T> {
    /// No routes.
    pub fn new(fallback: T) -> (r: Self)
        ensures
            r.routes@.len() == 0,
            r.fallback == fallback,
    {
        ExactRoutes { routes: Vec::new(), fallback }
    }

    fn find(&self, method: &Method, path: &str) -> (r: usize)
        ensures
            r == place_of(self.routes@, method@, path@),
            r <= self.routes@.len(),
            r < self.routes@.len() ==> is_for(self.routes@[r as int], method@, path@),
    {
        let mut i: usize = 0;
        assert(self.routes@.take(0).len() == 0);
        while i < self.routes.len()
            invariant
                i <= self.routes@.len(),
                place_of(self.routes@.take(i as int), method@, path@) == i,
            decreases self.routes@.len() - i,
        {
            let ghost next = self.routes@.take(i + 1);
            assert(next.drop_last() =~= self.routes@.take(i as int));
            assert(next.last() == self.routes@[i as int]);
            if self.routes[i].0.same(method) && same_text(self.routes[i].1.as_str(), path) {
                proof {
                    lemma_place_stays(self.routes@, i + 1, method@, path@);
                }
                return i;
            }
            i += 1;
        }
        assert(self.routes@.take(i as int) =~= self.routes@);
        i
    }

    /// Sets the value for a method and a path.
    pub fn insert(&mut self, method: Method, path: String, value: T)
        ensures
            ({
                let i = place_of(old(self).routes@, method@, path@);
                final(self).routes@ == if i < old(self).routes@.len() {
                    old(self).routes@.update(i as int, (method, path, value))
                } else {
                    old(self).routes@.push((method, path, value))
                }
            }),
            final(self).fallback == old(self).fallback,
    {
        let i: usize = self.find(&method, path.as_str());
        if i < self.routes.len() {
            self.routes.set(i, (method, path, value));
        } else {
            self.routes.push((method, path, value));
        }
    }

    /// The value that a request is handed to.
    pub fn choose_mut(&mut self, method: &Method, path: &str) -> (r: &mut T)
        ensures
            ({
                let i = place_of(old(self).routes@, method@, path@) as int;
                if i < old(self).routes@.len() {
                    let entry = old(self).routes@[i];
                    &&& *r == entry.2
                    &&& final(self).routes@ == old(self).routes@.update(
                        i,
                        (entry.0, entry.1, *final(r)),
                    )
                    &&& final(self).fallback == old(self).fallback
                } else {
                    &&& *r == old(self).fallback
                    &&& final(self).fallback == *final(r)
                    &&& final(self).routes@ == old(self).routes@
                }
            }),
    {
        let i: usize = self.find(method, path);
        if i < self.routes.len() {
            &mut self.routes[i].2
        } else {
            &mut self.fallback
        }
    }
}

/// What was found among the first entries is found among all.
proof fn lemma_place_stays<T>(
    routes: Seq<(Method, String, T)>,
    n: int,
    method: Seq<char>,
    path: Seq<char>,
)
    requires
        0 <= n <= routes.len(),
        place_of(routes.take(n), method, path) < n,
    ensures
        place_of(routes, method, path) == place_of(routes.take(n), method, path),
    decreases routes.len() - n,
{
    if n == routes.len() {
        assert(routes.take(n) =~= routes);
    } else {
        let next = routes.take(n + 1);
        assert(next.drop_last() =~= routes.take(n));
        lemma_place_stays(routes, n + 1, method, path);
    }
}

} // verus!
