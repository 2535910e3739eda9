//! The sequence-producer capability: a value that can be asked for its next
//! element, any number of times, until it signals exhaustion. Every merge
//! combinator both consumes producers and is one, so combinators compose.

use vstd::prelude::*;

verus! {

/// An abstract pull source of elements of type `T`.
///
/// `future()` is the exact sequence of elements the producer will still
/// yield; `next` pops its head, or returns `None` exactly when the producer
/// is exhausted (and then keeps returning `None` forever, since the future
/// stays empty).
pub trait Producer<T> {
    spec fn wf(&self) -> bool;

    spec fn future(&self) -> Seq<T>;

    fn next(&mut self) -> (r: Option<T>)
        requires
            old(self).wf(),
        ensures
            final(self).wf(),
            match r {
                Some(v) => old(self).future().len() > 0 && v == old(self).future()[0]
                    && final(self).future() == old(self).future().drop_first(),
                None => old(self).future().len() == 0 && final(self).future() == old(
                    self,
                ).future(),
            },
    ;
}

/// A producer backed by a vector, yielding its elements front to back.
pub struct Source<T> {
    items: Vec<T>,
}

impl<T> Source<T> {
    pub fn new(items: Vec<T>) -> (r: Source<T>)
        ensures
            r.wf(),
            r.future() == items@,
    {
        Source { items }
    }
}

impl<T> Producer<T> for Source<T> {
    open spec fn wf(&self) -> bool {
        true
    }

    closed spec fn future(&self) -> Seq<T> {
        self.items@
    }

    fn next(&mut self) -> (r: Option<T>) {
        if self.items.len() == 0 {
            None
        } else {
            let v = self.items.remove(0);
            assert(self.items@ == old(self).items@.drop_first());
            Some(v)
        }
    }
}

} // verus!
