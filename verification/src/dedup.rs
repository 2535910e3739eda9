//! A consecutive-duplicate-removal combinator: streams its source with
//! immediately-consecutive equal runs collapsed to one representative. The
//! input need not be sorted; only adjacent equal elements collapse.

use vstd::prelude::*;

use crate::order::Ordered;
use crate::producer::Producer;

verus! {

/// The sequence `s` with immediately-consecutive equal runs collapsed to
/// one representative each.
pub open spec fn collapsed<T>(s: Seq<T>) -> Seq<T>
    decreases s.len(),
{
    if s.len() <= 1 {
        s
    } else if s[0] == s[1] {
        collapsed(s.drop_first())
    } else {
        seq![s[0]] + collapsed(s.drop_first())
    }
}

/// Streams its source with immediately-consecutive equal runs collapsed,
/// holding the current run's representative until the run ends.
pub struct Dedup<T, I> {
    prev: Option<T>,
    iter: I,
}

impl<T: Ordered, I: Producer<T>> Producer<T> for Dedup<T, I> {
    closed spec fn wf(&self) -> bool {
        &&& self.iter.wf()
        &&& (self.prev is None ==> self.iter.future().len() == 0)
    }

    closed spec fn future(&self) -> Seq<T> {
        match self.prev {
            None => Seq::<T>::empty(),
            Some(p) => collapsed(seq![p] + self.iter.future()),
        }
    }

    fn next(&mut self) -> (r: Option<T>) {
        if self.prev.is_none() {
            return None;
        }
        loop
            invariant
                old(self).wf(),
                self.wf(),
                self.prev is Some,
                self.future() == old(self).future(),
            decreases self.iter.future().len(),
        {
            let ghost p = self.prev->Some_0;
            let ghost f = self.iter.future();
            proof {
                assert(self.future() == collapsed(seq![p] + f));
            }
            match self.iter.next() {
                None => {
                    let out = self.prev.take();
                    proof {
                        assert(f.len() == 0);
                        assert(seq![p] + f =~= seq![p]);
                        assert(collapsed(seq![p]) == seq![p]);
                        assert(self.future() =~= collapsed(seq![p]).drop_first());
                    }
                    return out;
                },
                Some(val) => {
                    let run_continues = {
                        let pr = self.prev.as_ref().unwrap();
                        pr.le(&val) && val.le(pr)
                    };
                    let ghost c = seq![p] + f;
                    proof {
                        assert(c.len() >= 2);
                        assert(c[0] == p && c[1] == f[0] && f[0] == val);
                        assert(c.drop_first() =~= f);
                    }
                    if !run_continues {
                        let out = self.prev.take();
                        self.prev = Some(val);
                        proof {
                            assert(p != val) by {
                                T::le_total(p, p);
                            }
                            assert(collapsed(c) == seq![p] + collapsed(f));
                            assert(seq![val] + f.drop_first() =~= f);
                            assert(self.future() == collapsed(f));
                            assert(self.future() =~= collapsed(c).drop_first());
                        }
                        return out;
                    } else {
                        proof {
                            T::le_antisym(p, val);
                            assert(p == val);
                            assert(collapsed(c) == collapsed(f));
                            assert(seq![p] + f.drop_first() =~= f);
                            assert(self.future() == collapsed(f));
                        }
                    }
                },
            }
        }
    }
}

/// An extension trait that collapses a producer's immediately-consecutive
/// equal runs: the future output is exactly `collapsed` of the input's
/// future.
pub trait Dedupable<T, I>: Producer<T> + Sized where T: Ordered, I: Producer<T> {
    fn dedup(self) -> (r: Dedup<T, I>)
        requires
            self.wf(),
        ensures
            r.wf(),
            r.future() == collapsed(self.future()),
    ;
}

impl<T: Ordered, I: Producer<T>> Dedupable<T, I> for I {
    fn dedup(self) -> (r: Dedup<T, I>) {
        let ghost f = self.future();
        let mut source = self;
        let next = source.next();
        let prev = if next.is_some() {
            next
        } else {
            None
        };
        let r = Dedup { prev, iter: source };
        proof {
            if f.len() == 0 {
                assert(r.future() =~= collapsed(f));
            } else {
                assert(seq![f[0]] + f.drop_first() =~= f);
                assert(r.future() == collapsed(f));
            }
        }
        r
    }
}

} // verus!
