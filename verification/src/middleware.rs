//! Middleware that wraps one handler into another.

use vstd::prelude::*;

verus! {

/// What turns a handler into another handler.
pub trait Middleware: Send + Sync + 'static {
    type Input;

    type Output;

    fn chain(&self, input: Self::Input) -> Self::Output;
}

/// Whether a handler is what becomes of another one when the middlewares are put around it, the
/// last one first, so that the first one is outermost.
pub open spec fn wraps<H, M: Middleware<Input = H, Output = H>>(
    links: Seq<M>,
    inner: H,
    outer: H,
) -> bool
    decreases links.len(),
{
    if links.len() == 0 {
        outer == inner
    } else {
        exists|mid: H|
            #[trigger] call_ensures(M::chain, (&links.last(), inner), mid) && wraps(
                links.drop_last(),
                mid,
                outer,
            )
    }
}

/// Middlewares in the order in which they were added.
#[derive(Debug)]
pub struct Chain<M> {
    pub links: Vec<M>,
}

impl<M> Chain<M> {
    /// A chain that leaves handlers as they are.
    pub fn new() -> (r: Self)
        ensures
            r.links@.len() == 0,
    {
        Chain { links: Vec::new() }
    }

    /// Adds a middleware inside of those that are there.
    pub fn middleware(&mut self, middleware: M)
        ensures
            final(self).links@ == old(self).links@.push(middleware),
    {
        self.links.push(middleware);
    }

    /// Puts the middlewares around a handler.
    pub fn wrap<H>(&self, handler: H) -> (r: H) where M: Middleware<Input = H, Output = H>
        ensures
            wraps(self.links@, handler, r),
    {
        let mut i: usize = self.links.len();
        let mut wrapped: H = handler;
        proof {
            assert(self.links@.take(i as int) =~= self.links@);
        }
        while i > 0
            invariant
                i <= self.links@.len(),
                forall|outer: H|
                    wraps(self.links@.take(i as int), wrapped, outer) ==> #[trigger] wraps(
                        self.links@,
                        handler,
                        outer,
                    ),
            decreases i,
        {
            let ghost before = wrapped;
            let ghost part = self.links@.take(i as int);
            wrapped = self.links[i - 1].chain(wrapped);
            proof {
                assert(part.drop_last() =~= self.links@.take(i - 1));
                assert(part.last() == self.links@[i - 1]);
                assert forall|outer: H|
                    wraps(self.links@.take(i - 1), wrapped, outer) implies #[trigger] wraps(
                    self.links@,
                    handler,
                    outer,
                ) by {
                    assert(call_ensures(M::chain, (&part.last(), before), wrapped));
                    assert(wraps(part.drop_last(), wrapped, outer));
                    assert(wraps(part, before, outer));
                }
            }
            i -= 1;
        }
        wrapped
    }
}

/// How much a processed request is worth telling.
#[derive(Debug, Clone, Copy, PartialEq, Eq, Structural)]
pub enum LogLevel {
    Info,
    Warn,
    Error,
}

/// The level at which a processed request is logged: an error where there is no response, and a
/// warning where the status of the response is not one of success.
pub fn log_level(status: Option<u16>) -> (r: LogLevel)
    ensures
        r == match status {
            Some(code) => if 200 <= code < 300 {
                LogLevel::Info
            } else {
                LogLevel::Warn
            },
            None => LogLevel::Error,
        },
{
    match status {
        Some(code) => {
            if 200 <= code && code < 300 {
                LogLevel::Info
            } else {
                LogLevel::Warn
            }
        },
        None => LogLevel::Error,
    }
}

} // verus!
