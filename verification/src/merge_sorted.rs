//! Two-source streaming merges built by free functions, one per ordering
//! strategy, plus a dynamic k-way merge over a runtime collection of
//! producers. Each merge keeps exactly one buffered element (the pair
//! merges) or a sorted frontier of (value, source) entries (the k-way
//! merge), and is itself a producer, so merges compose.

use vstd::prelude::*;
use vstd::multiset::Multiset;

use crate::frontier::{
    combined, drained, entries_ok, entries_view, entry_contents, entry_le, entry_ok,
    frontier_contents, frontier_sorted, futures_view, lemma_combined_len, lemma_drained_contents,
    lemma_drained_len, lemma_drained_sorted, lemma_entry_ok_step, lemma_frontier_contents_push,
    lemma_frontier_drop_first, lemma_frontier_weight_is_contents_len, lemma_slide_entries_ok,
    lemma_slide_position, lemma_slide_sorted, lemma_sorted_push, slide, total_len,
};
use crate::merge_spec::buffered_merge;
use crate::merge_spec::merged;
use crate::order::comparator_le;
use crate::order::key_le;
use crate::order::lemma_natural_le_ordering;
use crate::order::natural_le;
use crate::order::Comparator;
use crate::order::KeyExtractor;
use crate::order::Ordered;
use crate::producer::Producer;

verus! {

/// Streams the sorted union of two producers under the natural order,
/// keeping one buffered element pulled from the side not queried next.
pub struct MergeSorted<I, J, O> {
    iter1: I,
    iter2: J,
    curr: Option<O>,
    is_iter1_smaller: bool,
}

impl<I: Producer<O>, J: Producer<O>, O: Ordered> MergeSorted<I, J, O> {
    spec fn active_future(&self) -> Seq<O> {
        if self.is_iter1_smaller {
            self.iter1.future()
        } else {
            self.iter2.future()
        }
    }

    spec fn passive_future(&self) -> Seq<O> {
        if self.is_iter1_smaller {
            self.iter2.future()
        } else {
            self.iter1.future()
        }
    }
}

impl<I: Producer<O>, J: Producer<O>, O: Ordered> Producer<O> for MergeSorted<I, J, O> {
    closed spec fn wf(&self) -> bool {
        &&& self.iter1.wf()
        &&& self.iter2.wf()
        &&& (self.curr is None ==> self.passive_future().len() == 0)
    }

    closed spec fn future(&self) -> Seq<O> {
        match self.curr {
            None => self.active_future(),
            Some(x) => buffered_merge(
                natural_le::<O>(),
                x,
                self.active_future(),
                self.passive_future(),
            ),
        }
    }

    fn next(&mut self) -> (r: Option<O>) {
        let ghost leq = natural_le::<O>();
        if self.curr.is_some() {
            let ghost x = self.curr->Some_0;
            let ghost act = self.active_future();
            let ghost pas = self.passive_future();
            let nxt = if self.is_iter1_smaller {
                self.iter1.next()
            } else {
                self.iter2.next()
            };
            match nxt {
                Some(y) => {
                    proof {
                        assert(y == act[0]);
                        assert(self.active_future() == act.drop_first());
                        assert(self.passive_future() == pas);
                    }
                    let buffer_is_less = !y.le(self.curr.as_ref().unwrap());
                    if buffer_is_less {
                        let out = self.curr.take();
                        self.curr = Some(y);
                        self.is_iter1_smaller = !self.is_iter1_smaller;
                        proof {
                            assert(old(self).future() == seq![x] + buffered_merge(
                                leq,
                                y,
                                pas,
                                act.drop_first(),
                            ));
                            assert(self.future() =~= old(self).future().drop_first());
                        }
                        out
                    } else {
                        proof {
                            assert(old(self).future() == seq![y] + buffered_merge(
                                leq,
                                x,
                                act.drop_first(),
                                pas,
                            ));
                            assert(self.future() =~= old(self).future().drop_first());
                        }
                        Some(y)
                    }
                },
                None => {
                    let out = self.curr.take();
                    self.is_iter1_smaller = !self.is_iter1_smaller;
                    proof {
                        assert(act.len() == 0);
                        assert(old(self).future() == seq![x] + pas);
                        assert(self.future() =~= old(self).future().drop_first());
                    }
                    out
                },
            }
        } else {
            if self.is_iter1_smaller {
                self.iter1.next()
            } else {
                self.iter2.next()
            }
        }
    }
}

/// Streams the sorted union of two producers under an explicit comparator,
/// keeping one buffered element pulled from the side not queried next.
pub struct MergeSortedBy<I, J, F, O> {
    iter1: I,
    iter2: J,
    comparator: F,
    curr: Option<O>,
    is_iter1_smaller: bool,
}

impl<I: Producer<O>, J: Producer<O>, F: Comparator<O>, O> MergeSortedBy<I, J, F, O> {
    spec fn active_future(&self) -> Seq<O> {
        if self.is_iter1_smaller {
            self.iter1.future()
        } else {
            self.iter2.future()
        }
    }

    spec fn passive_future(&self) -> Seq<O> {
        if self.is_iter1_smaller {
            self.iter2.future()
        } else {
            self.iter1.future()
        }
    }
}

impl<I: Producer<O>, J: Producer<O>, F: Comparator<O>, O> Producer<O> for MergeSortedBy<
    I,
    J,
    F,
    O,
> {
    closed spec fn wf(&self) -> bool {
        &&& self.iter1.wf()
        &&& self.iter2.wf()
        &&& (self.curr is None ==> self.passive_future().len() == 0)
    }

    closed spec fn future(&self) -> Seq<O> {
        match self.curr {
            None => self.active_future(),
            Some(x) => buffered_merge(
                comparator_le(self.comparator),
                x,
                self.active_future(),
                self.passive_future(),
            ),
        }
    }

    fn next(&mut self) -> (r: Option<O>) {
        let ghost leq = comparator_le(self.comparator);
        if self.curr.is_some() {
            let ghost x = self.curr->Some_0;
            let ghost act = self.active_future();
            let ghost pas = self.passive_future();
            let nxt = if self.is_iter1_smaller {
                self.iter1.next()
            } else {
                self.iter2.next()
            };
            match nxt {
                Some(y) => {
                    proof {
                        assert(y == act[0]);
                        assert(self.active_future() == act.drop_first());
                        assert(self.passive_future() == pas);
                    }
                    let buffer_is_less = {
                        let xr = self.curr.as_ref().unwrap();
                        !self.comparator.le(&y, xr)
                    };
                    if buffer_is_less {
                        let out = self.curr.take();
                        self.curr = Some(y);
                        self.is_iter1_smaller = !self.is_iter1_smaller;
                        proof {
                            assert(old(self).future() == seq![x] + buffered_merge(
                                leq,
                                y,
                                pas,
                                act.drop_first(),
                            ));
                            assert(self.future() =~= old(self).future().drop_first());
                        }
                        out
                    } else {
                        proof {
                            assert(old(self).future() == seq![y] + buffered_merge(
                                leq,
                                x,
                                act.drop_first(),
                                pas,
                            ));
                            assert(self.future() =~= old(self).future().drop_first());
                        }
                        Some(y)
                    }
                },
                None => {
                    let out = self.curr.take();
                    self.is_iter1_smaller = !self.is_iter1_smaller;
                    proof {
                        assert(act.len() == 0);
                        assert(old(self).future() == seq![x] + pas);
                        assert(self.future() =~= old(self).future().drop_first());
                    }
                    out
                },
            }
        } else {
            if self.is_iter1_smaller {
                self.iter1.next()
            } else {
                self.iter2.next()
            }
        }
    }
}

/// Streams the sorted union of two producers under a derived-key order,
/// keeping one buffered element pulled from the side not queried next.
pub struct MergeSortedByKey<I, J, F, O> {
    iter1: I,
    iter2: J,
    key: F,
    curr: Option<O>,
    is_iter1_smaller: bool,
}

impl<I: Producer<O>, J: Producer<O>, F: KeyExtractor<O>, O> MergeSortedByKey<I, J, F, O> {
    spec fn active_future(&self) -> Seq<O> {
        if self.is_iter1_smaller {
            self.iter1.future()
        } else {
            self.iter2.future()
        }
    }

    spec fn passive_future(&self) -> Seq<O> {
        if self.is_iter1_smaller {
            self.iter2.future()
        } else {
            self.iter1.future()
        }
    }
}

impl<I: Producer<O>, J: Producer<O>, F: KeyExtractor<O>, O> Producer<O> for MergeSortedByKey<
    I,
    J,
    F,
    O,
> {
    closed spec fn wf(&self) -> bool {
        &&& self.iter1.wf()
        &&& self.iter2.wf()
        &&& (self.curr is None ==> self.passive_future().len() == 0)
    }

    closed spec fn future(&self) -> Seq<O> {
        match self.curr {
            None => self.active_future(),
            Some(x) => buffered_merge(
                key_le(self.key),
                x,
                self.active_future(),
                self.passive_future(),
            ),
        }
    }

    fn next(&mut self) -> (r: Option<O>) {
        let ghost leq = key_le(self.key);
        if self.curr.is_some() {
            let ghost x = self.curr->Some_0;
            let ghost act = self.active_future();
            let ghost pas = self.passive_future();
            let nxt = if self.is_iter1_smaller {
                self.iter1.next()
            } else {
                self.iter2.next()
            };
            match nxt {
                Some(y) => {
                    proof {
                        assert(y == act[0]);
                        assert(self.active_future() == act.drop_first());
                        assert(self.passive_future() == pas);
                    }
                    let buffer_is_less = {
                        let xr = self.curr.as_ref().unwrap();
                        let kx = self.key.key(xr);
                        let ky = self.key.key(&y);
                        !ky.le(&kx)
                    };
                    if buffer_is_less {
                        let out = self.curr.take();
                        self.curr = Some(y);
                        self.is_iter1_smaller = !self.is_iter1_smaller;
                        proof {
                            assert(old(self).future() == seq![x] + buffered_merge(
                                leq,
                                y,
                                pas,
                                act.drop_first(),
                            ));
                            assert(self.future() =~= old(self).future().drop_first());
                        }
                        out
                    } else {
                        proof {
                            assert(old(self).future() == seq![y] + buffered_merge(
                                leq,
                                x,
                                act.drop_first(),
                                pas,
                            ));
                            assert(self.future() =~= old(self).future().drop_first());
                        }
                        Some(y)
                    }
                },
                None => {
                    let out = self.curr.take();
                    self.is_iter1_smaller = !self.is_iter1_smaller;
                    proof {
                        assert(act.len() == 0);
                        assert(old(self).future() == seq![x] + pas);
                        assert(self.future() =~= old(self).future().drop_first());
                    }
                    out
                },
            }
        } else {
            if self.is_iter1_smaller {
                self.iter1.next()
            } else {
                self.iter2.next()
            }
        }
    }
}

/// Builds the two-source merge of `iter1` and `iter2` under the natural
/// order of their elements. Its future output is exactly `merged` of the
/// two inputs' futures.
pub fn merge_sorted<I, J, O>(iter1: I, iter2: J) -> (r: MergeSorted<I, J, O>) where
    I: Producer<O>,
    J: Producer<O>,
    O: Ordered,

    requires
        iter1.wf(),
        iter2.wf(),
    ensures
        r.wf(),
        r.future() == merged(natural_le::<O>(), iter1.future(), iter2.future()),
{
    let ghost a = iter1.future();
    let ghost b = iter2.future();
    let mut iter2 = iter2;
    let curr = iter2.next();
    let r = MergeSorted { iter1, iter2, curr, is_iter1_smaller: true };
    proof {
        if b.len() == 0 {
            assert(r.future() == a);
        } else {
            assert(r.future() == buffered_merge(natural_le::<O>(), b[0], a, b.drop_first()));
        }
    }
    r
}

/// Builds the two-source merge of `iter1` and `iter2` under an explicit
/// comparator. Its future output is exactly `merged` of the two inputs'
/// futures under the comparator's order.
pub fn merge_sorted_by<I, J, F, O>(iter1: I, iter2: J, comparator: F) -> (r: MergeSortedBy<
    I,
    J,
    F,
    O,
>) where I: Producer<O>, J: Producer<O>, F: Comparator<O>
    requires
        iter1.wf(),
        iter2.wf(),
    ensures
        r.wf(),
        r.future() == merged(comparator_le(comparator), iter1.future(), iter2.future()),
{
    let ghost a = iter1.future();
    let ghost b = iter2.future();
    let mut iter2 = iter2;
    let curr = iter2.next();
    let r = MergeSortedBy { iter1, iter2, comparator, curr, is_iter1_smaller: true };
    proof {
        if b.len() == 0 {
            assert(r.future() == a);
        } else {
            assert(r.future() == buffered_merge(
                comparator_le(comparator),
                b[0],
                a,
                b.drop_first(),
            ));
        }
    }
    r
}

/// Builds the two-source merge of `iter1` and `iter2` under a derived-key
/// order. Its future output is exactly `merged` of the two inputs' futures
/// under that order.
pub fn merge_sorted_by_key<I, J, F, O>(iter1: I, iter2: J, key: F) -> (r: MergeSortedByKey<
    I,
    J,
    F,
    O,
>) where I: Producer<O>, J: Producer<O>, F: KeyExtractor<O>
    requires
        iter1.wf(),
        iter2.wf(),
    ensures
        r.wf(),
        r.future() == merged(key_le(key), iter1.future(), iter2.future()),
{
    let ghost a = iter1.future();
    let ghost b = iter2.future();
    let mut iter2 = iter2;
    let curr = iter2.next();
    let r = MergeSortedByKey { iter1, iter2, key, curr, is_iter1_smaller: true };
    proof {
        if b.len() == 0 {
            assert(r.future() == a);
        } else {
            assert(r.future() == buffered_merge(key_le(key), b[0], a, b.drop_first()));
        }
    }
    r
}

/// Slides a fresh (value, producer) entry into a frontier vector: it passes
/// every entry whose value is strictly below its own and is inserted there.
pub(crate) fn frontier_insert<O: Ordered, P: Producer<O>>(
    frontier: &mut Vec<(O, P)>,
    entry: (O, P),
)
    ensures
        entries_view(final(frontier)@) == slide(
            natural_le::<O>(),
            (entry.0, entry.1.future()),
            entries_view(old(frontier)@),
        ),
        exists|j: int| 0 <= j <= old(frontier)@.len() && final(frontier)@ == old(frontier)@.insert(
            j,
            entry,
        ),
{
    let ghost leq = natural_le::<O>();
    let ghost xv = (entry.0, entry.1.future());
    let ghost tail = entries_view(frontier@);
    let mut j: usize = 0;
    while j < frontier.len() && !entry.0.le(&frontier[j].0)
        invariant
            j <= frontier@.len(),
            frontier@ == old(frontier)@,
            forall|k: int| 0 <= k < j ==> !entry.0.le_spec((#[trigger] frontier@[k]).0),
        decreases frontier@.len() - j,
    {
        j += 1;
    }
    proof {
        assert(tail.len() == frontier@.len());
        assert(forall|k: int| 0 <= k < j ==> !leq(xv.0, (#[trigger] tail[k]).0));
        if (j as int) < tail.len() {
            assert(leq(xv.0, tail[j as int].0));
        }
        lemma_slide_position(leq, xv, tail, j as int);
    }
    let ghost before = frontier@;
    frontier.insert(j, entry);
    proof {
        before.insert_ensures(j as int, entry);
        assert(entries_view(frontier@) =~= tail.take(j as int) + seq![xv] + tail.skip(j as int))
            by {
            assert forall|i: int| 0 <= i < entries_view(frontier@).len() implies entries_view(
                frontier@,
            )[i] == (tail.take(j as int) + seq![xv] + tail.skip(j as int))[i] by {
                if i < j {
                    assert(frontier@[i] == before[i]);
                } else if i == j {
                    assert(frontier@[i] == entry);
                } else {
                    assert(frontier@[i] == before[i - 1]);
                }
            }
        }
    }
}

/// Streams the sorted union of a runtime collection of producers under the
/// natural order, keeping one (frontier value, source) entry per still-
/// active producer, sorted ascending by frontier value.
pub struct MergeSortedDyn<O, P> {
    data: Vec<(O, P)>,
}

impl<O: Ordered, P: Producer<O>> MergeSortedDyn<O, P> {
    spec fn entries(&self) -> Seq<(O, Seq<O>)> {
        entries_view(self.data@)
    }
}

impl<O: Ordered, P: Producer<O>> Producer<O> for MergeSortedDyn<O, P> {
    closed spec fn wf(&self) -> bool {
        &&& forall|i: int| 0 <= i < self.data@.len() ==> (#[trigger] self.data@[i]).1.wf()
        &&& frontier_sorted(natural_le::<O>(), self.entries())
        &&& entries_ok(natural_le::<O>(), self.entries())
    }

    closed spec fn future(&self) -> Seq<O> {
        drained(natural_le::<O>(), self.entries())
    }

    fn next(&mut self) -> (r: Option<O>) {
        let ghost leq = natural_le::<O>();
        let ghost es = self.entries();
        if self.data.len() == 0 {
            proof {
                assert(es.len() == 0);
            }
            None
        } else {
            let entry = self.data.remove(0);
            let (out_v, mut prod) = entry;
            let ghost rest = prod.future();
            proof {
                lemma_natural_le_ordering::<O>();
                assert(es[0] == (out_v, rest));
                assert(entry_ok(leq, es[0]));
                assert(entries_view(self.data@) =~= es.drop_first());
                lemma_frontier_drop_first(leq, es);
            }
            let nxt = prod.next();
            match nxt {
                Some(y) => {
                    proof {
                        assert(y == rest[0]);
                        assert(prod.future() == rest.drop_first());
                        lemma_entry_ok_step(leq, es[0]);
                    }
                    let new_entry = (y, prod);
                    let ghost esnap = new_entry;
                    let ghost dbefore = self.data@;
                    let ghost tail = entries_view(self.data@);
                    frontier_insert(&mut self.data, new_entry);
                    proof {
                        let xv = (rest[0], rest.drop_first());
                        assert(self.entries() == slide(leq, xv, tail));
                        lemma_slide_sorted(leq, xv, tail);
                        lemma_slide_entries_ok(leq, xv, tail);
                        assert(self.future() =~= old(self).future().drop_first());
                        let mid = choose|j: int|
                            0 <= j <= dbefore.len() && self.data@ == dbefore.insert(j, esnap);
                        dbefore.insert_ensures(mid, esnap);
                        assert forall|i: int| 0 <= i < self.data@.len() implies (
                        #[trigger] self.data@[i]).1.wf() by {
                            if i < mid {
                                assert(self.data@[i] == dbefore[i]);
                                assert(dbefore[i] == old(self).data@[i + 1]);
                            } else if i == mid {
                                assert(self.data@[i] == esnap);
                            } else {
                                assert(self.data@[i] == dbefore[i - 1]);
                                assert(dbefore[i - 1] == old(self).data@[i]);
                            }
                        }
                    }
                    Some(out_v)
                },
                None => {
                    proof {
                        assert(rest.len() == 0);
                        assert(self.future() =~= old(self).future().drop_first());
                    }
                    Some(out_v)
                },
            }
        }
    }
}

impl<O: Ordered, P: Producer<O>> MergeSortedDyn<O, P> {
    /// Combines two k-way merges into one whose future output is the full
    /// ascending merge of both instances' remaining outputs, by pairwise
    /// merging the two sorted frontiers into one.
    pub fn merge(self, other: Self) -> (r: Self)
        requires
            self.wf(),
            other.wf(),
        ensures
            r.wf(),
            r.future().to_multiset() == self.future().to_multiset().add(
                other.future().to_multiset(),
            ),
            r.future().len() == self.future().len() + other.future().len(),
            vstd::relations::sorted_by(r.future(), natural_le::<O>()),
    {
        let ghost leq = natural_le::<O>();
        let ghost ea0 = entries_view(self.data@);
        let ghost eb0 = entries_view(other.data@);
        let mut a = self.data;
        let mut b = other.data;
        let mut out: Vec<(O, P)> = Vec::new();
        proof {
            lemma_natural_le_ordering::<O>();
            lemma_drained_contents(leq, ea0);
            lemma_drained_contents(leq, eb0);
            lemma_drained_len(leq, ea0);
            lemma_drained_len(leq, eb0);
            lemma_frontier_weight_is_contents_len(ea0);
            lemma_frontier_weight_is_contents_len(eb0);
            assert(frontier_contents(entries_view(out@)) =~= Multiset::<O>::empty());
        }
        while a.len() > 0 && b.len() > 0
            invariant
                leq == natural_le::<O>(),
                forall|i: int| 0 <= i < a@.len() ==> (#[trigger] a@[i]).1.wf(),
                forall|i: int| 0 <= i < b@.len() ==> (#[trigger] b@[i]).1.wf(),
                forall|i: int| 0 <= i < out@.len() ==> (#[trigger] out@[i]).1.wf(),
                frontier_sorted(leq, entries_view(a@)),
                frontier_sorted(leq, entries_view(b@)),
                frontier_sorted(leq, entries_view(out@)),
                entries_ok(leq, entries_view(a@)),
                entries_ok(leq, entries_view(b@)),
                entries_ok(leq, entries_view(out@)),
                out@.len() > 0 && a@.len() > 0 ==> leq(
                    entries_view(out@).last().0,
                    entries_view(a@)[0].0,
                ),
                out@.len() > 0 && b@.len() > 0 ==> leq(
                    entries_view(out@).last().0,
                    entries_view(b@)[0].0,
                ),
                frontier_contents(entries_view(out@)).add(
                    frontier_contents(entries_view(a@)),
                ).add(frontier_contents(entries_view(b@))) =~= frontier_contents(ea0).add(
                    frontier_contents(eb0),
                ),
            decreases a@.len() + b@.len(),
        {
            broadcast use vstd::multiset::group_multiset_axioms;

            proof {
                lemma_natural_le_ordering::<O>();
                crate::frontier::lemma_entry_le_ordering(leq);
            }
            let take_a = {
                let ra = &a[0];
                let rb = &b[0];
                ra.0.le(&rb.0)
            };
            if take_a {
                let ghost astart = a@;
                let ghost obefore = out@;
                let e = a.remove(0);
                let ghost esnap = e;
                proof {
                    assert(e == astart[0]);
                    assert(entries_view(a@) =~= entries_view(astart).drop_first());
                    lemma_frontier_drop_first(leq, entries_view(astart));
                }
                out.push(e);
                proof {
                    let ev = (esnap.0, esnap.1.future());
                    assert(ev == entries_view(astart)[0]);
                    assert(entries_view(out@) =~= entries_view(obefore).push(ev));
                    lemma_sorted_push(entry_le(leq), entries_view(obefore), ev);
                    lemma_frontier_contents_push(entries_view(obefore), ev);
                    assert(entries_ok(leq, entries_view(out@))) by {
                        assert forall|i: int| 0 <= i < entries_view(out@).len() implies entry_ok(
                            leq,
                            #[trigger] entries_view(out@)[i],
                        ) by {
                            if i < entries_view(obefore).len() {
                                assert(entries_view(out@)[i] == entries_view(obefore)[i]);
                            } else {
                                assert(entries_view(out@)[i] == ev);
                            }
                        }
                    }
                    assert(entries_view(out@).last() == ev);
                    if a@.len() > 0 {
                        assert(entry_le(leq)(
                            entries_view(astart)[0],
                            entries_view(astart)[1],
                        ));
                        assert(entries_view(a@)[0] == entries_view(astart)[1]);
                    }
                    assert(frontier_contents(entries_view(astart)) == entry_contents(ev).add(
                        frontier_contents(entries_view(a@)),
                    ));
                }
            } else {
                let ghost bstart = b@;
                let ghost obefore = out@;
                let e = b.remove(0);
                let ghost esnap = e;
                proof {
                    assert(e == bstart[0]);
                    assert(entries_view(b@) =~= entries_view(bstart).drop_first());
                    lemma_frontier_drop_first(leq, entries_view(bstart));
                }
                out.push(e);
                proof {
                    let ev = (esnap.0, esnap.1.future());
                    assert(ev == entries_view(bstart)[0]);
                    assert(leq(ev.0, entries_view(a@)[0].0)) by {
                        O::le_total(entries_view(a@)[0].0, ev.0);
                    }
                    assert(entries_view(out@) =~= entries_view(obefore).push(ev));
                    lemma_sorted_push(entry_le(leq), entries_view(obefore), ev);
                    lemma_frontier_contents_push(entries_view(obefore), ev);
                    assert(entries_ok(leq, entries_view(out@))) by {
                        assert forall|i: int| 0 <= i < entries_view(out@).len() implies entry_ok(
                            leq,
                            #[trigger] entries_view(out@)[i],
                        ) by {
                            if i < entries_view(obefore).len() {
                                assert(entries_view(out@)[i] == entries_view(obefore)[i]);
                            } else {
                                assert(entries_view(out@)[i] == ev);
                            }
                        }
                    }
                    assert(entries_view(out@).last() == ev);
                    if b@.len() > 0 {
                        assert(entry_le(leq)(
                            entries_view(bstart)[0],
                            entries_view(bstart)[1],
                        ));
                        assert(entries_view(b@)[0] == entries_view(bstart)[1]);
                    }
                    assert(frontier_contents(entries_view(bstart)) == entry_contents(ev).add(
                        frontier_contents(entries_view(b@)),
                    ));
                }
            }
        }
        while a.len() > 0
            invariant
                leq == natural_le::<O>(),
                forall|i: int| 0 <= i < a@.len() ==> (#[trigger] a@[i]).1.wf(),
                forall|i: int| 0 <= i < out@.len() ==> (#[trigger] out@[i]).1.wf(),
                frontier_sorted(leq, entries_view(a@)),
                frontier_sorted(leq, entries_view(out@)),
                entries_ok(leq, entries_view(a@)),
                entries_ok(leq, entries_view(out@)),
                out@.len() > 0 && a@.len() > 0 ==> leq(
                    entries_view(out@).last().0,
                    entries_view(a@)[0].0,
                ),
                a@.len() > 0 ==> b@.len() == 0,
                forall|i: int| 0 <= i < b@.len() ==> (#[trigger] b@[i]).1.wf(),
                frontier_sorted(leq, entries_view(b@)),
                entries_ok(leq, entries_view(b@)),
                out@.len() > 0 && b@.len() > 0 ==> leq(
                    entries_view(out@).last().0,
                    entries_view(b@)[0].0,
                ),
                frontier_contents(entries_view(out@)).add(
                    frontier_contents(entries_view(a@)),
                ).add(frontier_contents(entries_view(b@))) =~= frontier_contents(ea0).add(
                    frontier_contents(eb0),
                ),
            decreases a@.len(),
        {
            broadcast use vstd::multiset::group_multiset_axioms;

            proof {
                lemma_natural_le_ordering::<O>();
                crate::frontier::lemma_entry_le_ordering(leq);
            }
            let ghost astart = a@;
            let ghost obefore = out@;
            let e = a.remove(0);
            let ghost esnap = e;
            proof {
                assert(e == astart[0]);
                assert(entries_view(a@) =~= entries_view(astart).drop_first());
                lemma_frontier_drop_first(leq, entries_view(astart));
            }
            out.push(e);
            proof {
                let ev = (esnap.0, esnap.1.future());
                assert(ev == entries_view(astart)[0]);
                assert(entries_view(out@) =~= entries_view(obefore).push(ev));
                lemma_sorted_push(entry_le(leq), entries_view(obefore), ev);
                lemma_frontier_contents_push(entries_view(obefore), ev);
                assert(entries_ok(leq, entries_view(out@))) by {
                    assert forall|i: int| 0 <= i < entries_view(out@).len() implies entry_ok(
                        leq,
                        #[trigger] entries_view(out@)[i],
                    ) by {
                        if i < entries_view(obefore).len() {
                            assert(entries_view(out@)[i] == entries_view(obefore)[i]);
                        } else {
                            assert(entries_view(out@)[i] == ev);
                        }
                    }
                }
                assert(entries_view(out@).last() == ev);
                if a@.len() > 0 {
                    assert(entry_le(leq)(entries_view(astart)[0], entries_view(astart)[1]));
                    assert(entries_view(a@)[0] == entries_view(astart)[1]);
                }
                assert(frontier_contents(entries_view(astart)) == entry_contents(ev).add(
                    frontier_contents(entries_view(a@)),
                ));
            }
        }
        while b.len() > 0
            invariant
                leq == natural_le::<O>(),
                forall|i: int| 0 <= i < b@.len() ==> (#[trigger] b@[i]).1.wf(),
                forall|i: int| 0 <= i < out@.len() ==> (#[trigger] out@[i]).1.wf(),
                frontier_sorted(leq, entries_view(b@)),
                frontier_sorted(leq, entries_view(out@)),
                entries_ok(leq, entries_view(b@)),
                entries_ok(leq, entries_view(out@)),
                out@.len() > 0 && b@.len() > 0 ==> leq(
                    entries_view(out@).last().0,
                    entries_view(b@)[0].0,
                ),
                a@.len() == 0,
                forall|i: int| 0 <= i < a@.len() ==> (#[trigger] a@[i]).1.wf(),
                frontier_contents(entries_view(out@)).add(
                    frontier_contents(entries_view(a@)),
                ).add(frontier_contents(entries_view(b@))) =~= frontier_contents(ea0).add(
                    frontier_contents(eb0),
                ),
            decreases b@.len(),
        {
            broadcast use vstd::multiset::group_multiset_axioms;

            proof {
                lemma_natural_le_ordering::<O>();
                crate::frontier::lemma_entry_le_ordering(leq);
            }
            let ghost bstart = b@;
            let ghost obefore = out@;
            let e = b.remove(0);
            let ghost esnap = e;
            proof {
                assert(e == bstart[0]);
                assert(entries_view(b@) =~= entries_view(bstart).drop_first());
                lemma_frontier_drop_first(leq, entries_view(bstart));
            }
            out.push(e);
            proof {
                let ev = (esnap.0, esnap.1.future());
                assert(ev == entries_view(bstart)[0]);
                assert(entries_view(out@) =~= entries_view(obefore).push(ev));
                lemma_sorted_push(entry_le(leq), entries_view(obefore), ev);
                lemma_frontier_contents_push(entries_view(obefore), ev);
                assert(entries_ok(leq, entries_view(out@))) by {
                    assert forall|i: int| 0 <= i < entries_view(out@).len() implies entry_ok(
                        leq,
                        #[trigger] entries_view(out@)[i],
                    ) by {
                        if i < entries_view(obefore).len() {
                            assert(entries_view(out@)[i] == entries_view(obefore)[i]);
                        } else {
                            assert(entries_view(out@)[i] == ev);
                        }
                    }
                }
                assert(entries_view(out@).last() == ev);
                if b@.len() > 0 {
                    assert(entry_le(leq)(entries_view(bstart)[0], entries_view(bstart)[1]));
                    assert(entries_view(b@)[0] == entries_view(bstart)[1]);
                }
                assert(frontier_contents(entries_view(bstart)) == entry_contents(ev).add(
                    frontier_contents(entries_view(b@)),
                ));
            }
        }
        let r = MergeSortedDyn { data: out };
        proof {
            broadcast use vstd::multiset::group_multiset_axioms;

            assert(frontier_contents(entries_view(a@)) =~= Multiset::<O>::empty());
            assert(frontier_contents(entries_view(b@)) =~= Multiset::<O>::empty());
            assert(frontier_contents(r.entries()) =~= frontier_contents(ea0).add(
                frontier_contents(eb0),
            ));
            lemma_drained_contents(leq, r.entries());
            lemma_drained_len(leq, r.entries());
            lemma_frontier_weight_is_contents_len(r.entries());
            lemma_drained_sorted(leq, r.entries());
        }
        r
    }
}

/// Builds the k-way merge of a runtime collection of producers under the
/// natural order. Each producer is asked for its first element; exhausted
/// producers are discarded and the rest seed the sorted frontier. The
/// future output is the sorted union of everything the producers held.
pub fn merge_sorted_dyn<O, P>(data: Vec<P>) -> (r: MergeSortedDyn<O, P>) where
    O: Ordered,
    P: Producer<O>,

    requires
        forall|i: int| 0 <= i < data@.len() ==> (#[trigger] data@[i]).wf(),
        forall|i: int|
            0 <= i < data@.len() ==> vstd::relations::sorted_by(
                (#[trigger] data@[i]).future(),
                natural_le::<O>(),
            ),
    ensures
        r.wf(),
        r.future().to_multiset() == combined(futures_view(data@)),
        r.future().len() == total_len(futures_view(data@)),
        vstd::relations::sorted_by(r.future(), natural_le::<O>()),
{
    let ghost leq = natural_le::<O>();
    let ghost futs = futures_view(data@);
    let mut pending = data;
    let mut frontier: Vec<(O, P)> = Vec::new();
    proof {
        lemma_natural_le_ordering::<O>();
        assert(frontier_contents(entries_view(frontier@)) =~= Multiset::<O>::empty());
        assert(combined(futures_view(pending@)) == combined(futs));
    }
    while pending.len() > 0
        invariant
            leq == natural_le::<O>(),
            forall|i: int| 0 <= i < pending@.len() ==> (#[trigger] pending@[i]).wf(),
            forall|i: int|
                0 <= i < pending@.len() ==> vstd::relations::sorted_by(
                    (#[trigger] pending@[i]).future(),
                    natural_le::<O>(),
                ),
            forall|i: int| 0 <= i < frontier@.len() ==> (#[trigger] frontier@[i]).1.wf(),
            frontier_sorted(natural_le::<O>(), entries_view(frontier@)),
            entries_ok(natural_le::<O>(), entries_view(frontier@)),
            frontier_contents(entries_view(frontier@)).add(
                combined(futures_view(pending@)),
            ) =~= combined(futs),
        decreases pending@.len(),
    {
        broadcast use vstd::multiset::group_multiset_axioms;

        let ghost pstart = pending@;
        let ghost pfuts = futures_view(pending@);
        let mut p = pending.remove(0);
        let ghost pf = p.future();
        proof {
            lemma_natural_le_ordering::<O>();
            assert(p == pstart[0]);
            assert(p.wf() && vstd::relations::sorted_by(pf, natural_le::<O>())) by {
                assert(pstart[0].wf());
                assert(vstd::relations::sorted_by(pstart[0].future(), natural_le::<O>()));
            }
            assert(pfuts[0] == pf);
            assert(futures_view(pending@) =~= pfuts.drop_first());
            assert(combined(pfuts) == pf.to_multiset().add(combined(pfuts.drop_first())));
        }
        let nxt = p.next();
        match nxt {
            None => {
                proof {
                    vstd::seq_lib::to_multiset_len(pf);
                    assert(pf.to_multiset() =~= Multiset::<O>::empty());
                }
            },
            Some(v) => {
                let entry = (v, p);
                let ghost esnap = entry;
                let ghost fbefore = frontier@;
                let ghost tail = entries_view(frontier@);
                let ghost xv = (v, entry.1.future());
                proof {
                    assert(entry_ok(natural_le::<O>(), xv)) by {
                        assert(seq![xv.0] + xv.1 =~= pf);
                    }
                }
                frontier_insert(&mut frontier, entry);
                proof {
                    lemma_slide_sorted(leq, xv, tail);
                    lemma_slide_entries_ok(leq, xv, tail);
                    crate::frontier::lemma_slide_contents(leq, xv, tail);
                    assert(entry_contents(xv) =~= pf.to_multiset()) by {
                        broadcast use vstd::seq_lib::group_to_multiset_ensures;

                        assert(pf.drop_first() =~= pf.remove(0));
                        assert(pf.remove(0).to_multiset() =~= pf.to_multiset().remove(pf[0]));
                        assert(pf.to_multiset().contains(pf[0])) by {
                            assert(pf.contains(pf[0]));
                        }
                    }
                    let mid = choose|j: int|
                        0 <= j <= fbefore.len() && frontier@ == fbefore.insert(j, esnap);
                    fbefore.insert_ensures(mid, esnap);
                    assert forall|i: int| 0 <= i < frontier@.len() implies (
                    #[trigger] frontier@[i]).1.wf() by {
                        if i < mid {
                            assert(frontier@[i] == fbefore[i]);
                        } else if i == mid {
                            assert(frontier@[i] == esnap);
                        } else {
                            assert(frontier@[i] == fbefore[i - 1]);
                        }
                    }
                }
            },
        }
    }
    let r = MergeSortedDyn { data: frontier };
    proof {
        assert(futures_view(pending@).len() == 0);
        assert(combined(futures_view(pending@)) =~= Multiset::<O>::empty()) by {
            broadcast use vstd::multiset::group_multiset_axioms;

        }
        assert(frontier_contents(r.entries()) =~= combined(futs)) by {
            broadcast use vstd::multiset::group_multiset_axioms;

        }
        lemma_drained_contents(leq, r.entries());
        lemma_drained_len(leq, r.entries());
        lemma_frontier_weight_is_contents_len(r.entries());
        lemma_combined_len(futs);
        lemma_drained_sorted(leq, r.entries());
    }
    r
}

} // verus!
