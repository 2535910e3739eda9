//! Two-source streaming merges reached through the `Mergable` extension
//! trait, one constructor per ordering strategy, plus a dynamic k-way merge
//! over a runtime collection of producers. Each merge keeps exactly one
//! buffered element (the pair merges) or a sorted frontier of (value,
//! source) entries (the k-way merges), and is itself a producer, so merges
//! compose.

use vstd::prelude::*;
use vstd::multiset::Multiset;

use crate::frontier::{
    combined, drained, entries_ok, entries_view, entry_contents, entry_ok, frontier_contents,
    frontier_sorted, futures_view, lemma_combined_len, lemma_drained_contents, lemma_drained_len,
    lemma_drained_sorted, lemma_entry_ok_step, lemma_frontier_drop_first,
    lemma_frontier_weight_is_contents_len, lemma_slide_entries_ok, lemma_slide_position,
    lemma_slide_sorted, slide, total_len,
};
use crate::merge_spec::buffered_merge;
use crate::merge_spec::merged;
use crate::order::comparator_le;
use crate::order::key_le;
use crate::order::lemma_comparator_le_ordering;
use crate::order::lemma_natural_le_ordering;
use crate::order::lemma_key_le_ordering;
use crate::order::natural_le;
use crate::order::Comparator;
use crate::order::KeyExtractor;
use crate::order::Ordered;
use crate::producer::Producer;

verus! {

/// Streams the sorted union of two producers under the natural order,
/// keeping one buffered element pulled from the side not queried next.
pub struct Merge<I, J, O> {
    iter1: I,
    iter2: J,
    curr: Option<O>,
    is_iter1_smaller: bool,
}

impl<I: Producer<O>, J: Producer<O>, O: Ordered> Merge<I, J, O> {
    spec fn active_future(&self) -> Seq<O> {
        if self.is_iter1_smaller {
            self.iter1.future()
        } else {
            self.iter2.future()
        }
    }

    spec fn passive_future(&self) -> Seq<O> {
        if self.is_iter1_smaller {
            self.iter2.future()
        } else {
            self.iter1.future()
        }
    }
}

impl<I: Producer<O>, J: Producer<O>, O: Ordered> Producer<O> for Merge<I, J, O> {
    closed spec fn wf(&self) -> bool {
        &&& self.iter1.wf()
        &&& self.iter2.wf()
        &&& (self.curr is None ==> self.passive_future().len() == 0)
    }

    closed spec fn future(&self) -> Seq<O> {
        match self.curr {
            None => self.active_future(),
            Some(x) => buffered_merge(
                natural_le::<O>(),
                x,
                self.active_future(),
                self.passive_future(),
            ),
        }
    }

    fn next(&mut self) -> (r: Option<O>) {
        let ghost leq = natural_le::<O>();
        if self.curr.is_some() {
            let ghost x = self.curr->Some_0;
            let ghost act = self.active_future();
            let ghost pas = self.passive_future();
            let nxt = if self.is_iter1_smaller {
                self.iter1.next()
            } else {
                self.iter2.next()
            };
            match nxt {
                Some(y) => {
                    proof {
                        assert(y == act[0]);
                        assert(self.active_future() == act.drop_first());
                        assert(self.passive_future() == pas);
                    }
                    let buffer_is_less = !y.le(self.curr.as_ref().unwrap());
                    if buffer_is_less {
                        let out = self.curr.take();
                        self.curr = Some(y);
                        self.is_iter1_smaller = !self.is_iter1_smaller;
                        proof {
                            assert(old(self).future() == seq![x] + buffered_merge(
                                leq,
                                y,
                                pas,
                                act.drop_first(),
                            ));
                            assert(self.future() =~= old(self).future().drop_first());
                        }
                        out
                    } else {
                        proof {
                            assert(old(self).future() == seq![y] + buffered_merge(
                                leq,
                                x,
                                act.drop_first(),
                                pas,
                            ));
                            assert(self.future() =~= old(self).future().drop_first());
                        }
                        Some(y)
                    }
                },
                None => {
                    let out = self.curr.take();
                    self.is_iter1_smaller = !self.is_iter1_smaller;
                    proof {
                        assert(act.len() == 0);
                        assert(old(self).future() == seq![x] + pas);
                        assert(self.future() =~= old(self).future().drop_first());
                    }
                    out
                },
            }
        } else {
            if self.is_iter1_smaller {
                self.iter1.next()
            } else {
                self.iter2.next()
            }
        }
    }
}

/// Streams the sorted union of two producers under an explicit comparator,
/// keeping one buffered element pulled from the side not queried next.
pub struct MergeBy<I, J, F, O> {
    iter1: I,
    iter2: J,
    comparator: F,
    curr: Option<O>,
    is_iter1_smaller: bool,
}

impl<I: Producer<O>, J: Producer<O>, F: Comparator<O>, O> MergeBy<I, J, F, O> {
    spec fn active_future(&self) -> Seq<O> {
        if self.is_iter1_smaller {
            self.iter1.future()
        } else {
            self.iter2.future()
        }
    }

    spec fn passive_future(&self) -> Seq<O> {
        if self.is_iter1_smaller {
            self.iter2.future()
        } else {
            self.iter1.future()
        }
    }
}

impl<I: Producer<O>, J: Producer<O>, F: Comparator<O>, O> Producer<O> for MergeBy<
    I,
    J,
    F,
    O,
> {
    closed spec fn wf(&self) -> bool {
        &&& self.iter1.wf()
        &&& self.iter2.wf()
        &&& (self.curr is None ==> self.passive_future().len() == 0)
    }

    closed spec fn future(&self) -> Seq<O> {
        match self.curr {
            None => self.active_future(),
            Some(x) => buffered_merge(
                comparator_le(self.comparator),
                x,
                self.active_future(),
                self.passive_future(),
            ),
        }
    }

    fn next(&mut self) -> (r: Option<O>) {
        let ghost leq = comparator_le(self.comparator);
        if self.curr.is_some() {
            let ghost x = self.curr->Some_0;
            let ghost act = self.active_future();
            let ghost pas = self.passive_future();
            let nxt = if self.is_iter1_smaller {
                self.iter1.next()
            } else {
                self.iter2.next()
            };
            match nxt {
                Some(y) => {
                    proof {
                        assert(y == act[0]);
                        assert(self.active_future() == act.drop_first());
                        assert(self.passive_future() == pas);
                    }
                    let buffer_is_less = {
                        let xr = self.curr.as_ref().unwrap();
                        !self.comparator.le(&y, xr)
                    };
                    if buffer_is_less {
                        let out = self.curr.take();
                        self.curr = Some(y);
                        self.is_iter1_smaller = !self.is_iter1_smaller;
                        proof {
                            assert(old(self).future() == seq![x] + buffered_merge(
                                leq,
                                y,
                                pas,
                                act.drop_first(),
                            ));
                            assert(self.future() =~= old(self).future().drop_first());
                        }
                        out
                    } else {
                        proof {
                            assert(old(self).future() == seq![y] + buffered_merge(
                                leq,
                                x,
                                act.drop_first(),
                                pas,
                            ));
                            assert(self.future() =~= old(self).future().drop_first());
                        }
                        Some(y)
                    }
                },
                None => {
                    let out = self.curr.take();
                    self.is_iter1_smaller = !self.is_iter1_smaller;
                    proof {
                        assert(act.len() == 0);
                        assert(old(self).future() == seq![x] + pas);
                        assert(self.future() =~= old(self).future().drop_first());
                    }
                    out
                },
            }
        } else {
            if self.is_iter1_smaller {
                self.iter1.next()
            } else {
                self.iter2.next()
            }
        }
    }
}

/// Streams the sorted union of two producers under a derived-key order,
/// keeping one buffered element pulled from the side not queried next.
pub struct MergeByKey<I, J, F, O> {
    iter1: I,
    iter2: J,
    key: F,
    curr: Option<O>,
    is_iter1_smaller: bool,
}

impl<I: Producer<O>, J: Producer<O>, F: KeyExtractor<O>, O> MergeByKey<I, J, F, O> {
    spec fn active_future(&self) -> Seq<O> {
        if self.is_iter1_smaller {
            self.iter1.future()
        } else {
            self.iter2.future()
        }
    }

    spec fn passive_future(&self) -> Seq<O> {
        if self.is_iter1_smaller {
            self.iter2.future()
        } else {
            self.iter1.future()
        }
    }
}

impl<I: Producer<O>, J: Producer<O>, F: KeyExtractor<O>, O> Producer<O> for MergeByKey<
    I,
    J,
    F,
    O,
> {
    closed spec fn wf(&self) -> bool {
        &&& self.iter1.wf()
        &&& self.iter2.wf()
        &&& (self.curr is None ==> self.passive_future().len() == 0)
    }

    closed spec fn future(&self) -> Seq<O> {
        match self.curr {
            None => self.active_future(),
            Some(x) => buffered_merge(
                key_le(self.key),
                x,
                self.active_future(),
                self.passive_future(),
            ),
        }
    }

    fn next(&mut self) -> (r: Option<O>) {
        let ghost leq = key_le(self.key);
        if self.curr.is_some() {
            let ghost x = self.curr->Some_0;
            let ghost act = self.active_future();
            let ghost pas = self.passive_future();
            let nxt = if self.is_iter1_smaller {
                self.iter1.next()
            } else {
                self.iter2.next()
            };
            match nxt {
                Some(y) => {
                    proof {
                        assert(y == act[0]);
                        assert(self.active_future() == act.drop_first());
                        assert(self.passive_future() == pas);
                    }
                    let buffer_is_less = {
                        let xr = self.curr.as_ref().unwrap();
                        let kx = self.key.key(xr);
                        let ky = self.key.key(&y);
                        !ky.le(&kx)
                    };
                    if buffer_is_less {
                        let out = self.curr.take();
                        self.curr = Some(y);
                        self.is_iter1_smaller = !self.is_iter1_smaller;
                        proof {
                            assert(old(self).future() == seq![x] + buffered_merge(
                                leq,
                                y,
                                pas,
                                act.drop_first(),
                            ));
                            assert(self.future() =~= old(self).future().drop_first());
                        }
                        out
                    } else {
                        proof {
                            assert(old(self).future() == seq![y] + buffered_merge(
                                leq,
                                x,
                                act.drop_first(),
                                pas,
                            ));
                            assert(self.future() =~= old(self).future().drop_first());
                        }
                        Some(y)
                    }
                },
                None => {
                    let out = self.curr.take();
                    self.is_iter1_smaller = !self.is_iter1_smaller;
                    proof {
                        assert(act.len() == 0);
                        assert(old(self).future() == seq![x] + pas);
                        assert(self.future() =~= old(self).future().drop_first());
                    }
                    out
                },
            }
        } else {
            if self.is_iter1_smaller {
                self.iter1.next()
            } else {
                self.iter2.next()
            }
        }
    }
}

/// An extension trait that merges this producer with another: the three
/// methods build the two-source merge under the natural order, an explicit
/// comparator, or a derived key. The future output is exactly `merged` of
/// the two inputs' futures under the chosen order.
pub trait Mergable<J, O>: Producer<O> + Sized where J: Producer<O>, O: Ordered {
    fn merge(self, other: J) -> (r: Merge<Self, J, O>)
        requires
            self.wf(),
            other.wf(),
        ensures
            r.wf(),
            r.future() == merged(natural_le::<O>(), self.future(), other.future()),
    ;

    fn merge_by<F: Comparator<O>>(self, other: J, comparator: F) -> (r: MergeBy<Self, J, F, O>)
        requires
            self.wf(),
            other.wf(),
        ensures
            r.wf(),
            r.future() == merged(comparator_le(comparator), self.future(), other.future()),
    ;

    fn merge_by_key<F: KeyExtractor<O>>(self, other: J, key: F) -> (r: MergeByKey<Self, J, F, O>)
        requires
            self.wf(),
            other.wf(),
        ensures
            r.wf(),
            r.future() == merged(key_le(key), self.future(), other.future()),
    ;
}

impl<I, J, O> Mergable<J, O> for I where I: Producer<O>, J: Producer<O>, O: Ordered {
    fn merge(self, other: J) -> (r: Merge<Self, J, O>) {
        let ghost a = self.future();
        let ghost b = other.future();
        let iter1 = self;
        let mut iter2 = other;
        let curr = iter2.next();
        let r = Merge { iter1, iter2, curr, is_iter1_smaller: true };
        proof {
            if b.len() == 0 {
                assert(r.future() == a);
            } else {
                assert(r.future() == buffered_merge(natural_le::<O>(), b[0], a, b.drop_first()));
            }
        }
        r
    }

    fn merge_by<F: Comparator<O>>(self, other: J, comparator: F) -> (r: MergeBy<Self, J, F, O>) {
        let ghost a = self.future();
        let ghost b = other.future();
        let iter1 = self;
        let mut iter2 = other;
        let curr = iter2.next();
        let r = MergeBy { iter1, iter2, comparator, curr, is_iter1_smaller: true };
        proof {
            if b.len() == 0 {
                assert(r.future() == a);
            } else {
                assert(r.future() == buffered_merge(
                    comparator_le(comparator),
                    b[0],
                    a,
                    b.drop_first(),
                ));
            }
        }
        r
    }

    fn merge_by_key<F: KeyExtractor<O>>(self, other: J, key: F) -> (r: MergeByKey<
        Self,
        J,
        F,
        O,
    >) {
        let ghost a = self.future();
        let ghost b = other.future();
        let iter1 = self;
        let mut iter2 = other;
        let curr = iter2.next();
        let r = MergeByKey { iter1, iter2, key, curr, is_iter1_smaller: true };
        proof {
            if b.len() == 0 {
                assert(r.future() == a);
            } else {
                assert(r.future() == buffered_merge(key_le(key), b[0], a, b.drop_first()));
            }
        }
        r
    }
}

/// Decides whether `a`'s derived key is strictly greater than `b`'s.
fn key_gt<O, F: KeyExtractor<O>>(key: &F, a: &O, b: &O) -> (r: bool)
    ensures
        r == !key.key_spec(*a).le_spec(key.key_spec(*b)),
{
    let ka = key.key(a);
    let kb = key.key(b);
    let le = ka.le(&kb);
    !le
}

/// Slides a fresh (value, producer) entry into a frontier vector under an
/// explicit comparator: it passes every entry whose value is strictly below
/// its own and is inserted there.
fn frontier_insert_by<O, P: Producer<O>, F: Comparator<O>>(
    frontier: &mut Vec<(O, P)>,
    entry: (O, P),
    comparator: &F,
)
    ensures
        entries_view(final(frontier)@) == slide(
            comparator_le(*comparator),
            (entry.0, entry.1.future()),
            entries_view(old(frontier)@),
        ),
        exists|j: int| 0 <= j <= old(frontier)@.len() && final(frontier)@ == old(frontier)@.insert(
            j,
            entry,
        ),
{
    let ghost leq = comparator_le(*comparator);
    let ghost xv = (entry.0, entry.1.future());
    let ghost tail = entries_view(frontier@);
    let mut j: usize = 0;
    while j < frontier.len() && !comparator.le(&entry.0, &frontier[j].0)
        invariant
            j <= frontier@.len(),
            frontier@ == old(frontier)@,
            forall|k: int| 0 <= k < j ==> !comparator.le_spec(entry.0, (#[trigger] frontier@[k]).0),
        decreases frontier@.len() - j,
    {
        j += 1;
    }
    proof {
        assert(tail.len() == frontier@.len());
        assert(forall|k: int| 0 <= k < j ==> !leq(xv.0, (#[trigger] tail[k]).0));
        if (j as int) < tail.len() {
            assert(leq(xv.0, tail[j as int].0));
        }
        lemma_slide_position(leq, xv, tail, j as int);
    }
    let ghost before = frontier@;
    frontier.insert(j, entry);
    proof {
        before.insert_ensures(j as int, entry);
        assert(entries_view(frontier@) =~= tail.take(j as int) + seq![xv] + tail.skip(j as int))
            by {
            assert forall|i: int| 0 <= i < entries_view(frontier@).len() implies entries_view(
                frontier@,
            )[i] == (tail.take(j as int) + seq![xv] + tail.skip(j as int))[i] by {
                if i < j {
                    assert(frontier@[i] == before[i]);
                } else if i == j {
                    assert(frontier@[i] == entry);
                } else {
                    assert(frontier@[i] == before[i - 1]);
                }
            }
        }
    }
}

/// Slides a fresh (value, producer) entry into a frontier vector under a
/// derived-key order: it passes every entry whose value is strictly below
/// its own and is inserted there.
fn frontier_insert_by_key<O, P: Producer<O>, F: KeyExtractor<O>>(
    frontier: &mut Vec<(O, P)>,
    entry: (O, P),
    key: &F,
)
    ensures
        entries_view(final(frontier)@) == slide(
            key_le(*key),
            (entry.0, entry.1.future()),
            entries_view(old(frontier)@),
        ),
        exists|j: int| 0 <= j <= old(frontier)@.len() && final(frontier)@ == old(frontier)@.insert(
            j,
            entry,
        ),
{
    let ghost leq = key_le(*key);
    let ghost xv = (entry.0, entry.1.future());
    let ghost tail = entries_view(frontier@);
    let mut j: usize = 0;
    while j < frontier.len() && key_gt(key, &entry.0, &frontier[j].0)
        invariant
            j <= frontier@.len(),
            frontier@ == old(frontier)@,
            forall|k: int|
                0 <= k < j ==> !key.key_spec(entry.0).le_spec(
                    key.key_spec((#[trigger] frontier@[k]).0),
                ),
        decreases frontier@.len() - j,
    {
        j += 1;
    }
    proof {
        assert(tail.len() == frontier@.len());
        assert(forall|k: int| 0 <= k < j ==> !leq(xv.0, (#[trigger] tail[k]).0));
        if (j as int) < tail.len() {
            assert(leq(xv.0, tail[j as int].0));
        }
        lemma_slide_position(leq, xv, tail, j as int);
    }
    let ghost before = frontier@;
    frontier.insert(j, entry);
    proof {
        before.insert_ensures(j as int, entry);
        assert(entries_view(frontier@) =~= tail.take(j as int) + seq![xv] + tail.skip(j as int))
            by {
            assert forall|i: int| 0 <= i < entries_view(frontier@).len() implies entries_view(
                frontier@,
            )[i] == (tail.take(j as int) + seq![xv] + tail.skip(j as int))[i] by {
                if i < j {
                    assert(frontier@[i] == before[i]);
                } else if i == j {
                    assert(frontier@[i] == entry);
                } else {
                    assert(frontier@[i] == before[i - 1]);
                }
            }
        }
    }
}

/// Streams the sorted union of a runtime collection of producers under the
/// natural order, keeping one (frontier value, source) entry per still-
/// active producer, sorted ascending by frontier value.
pub struct MergeDyn<O, P> {
    data: Vec<(O, P)>,
}

impl<O: Ordered, P: Producer<O>> MergeDyn<O, P> {
    spec fn entries(&self) -> Seq<(O, Seq<O>)> {
        entries_view(self.data@)
    }
}

impl<O: Ordered, P: Producer<O>> Producer<O> for MergeDyn<O, P> {
    closed spec fn wf(&self) -> bool {
        &&& forall|i: int| 0 <= i < self.data@.len() ==> (#[trigger] self.data@[i]).1.wf()
        &&& frontier_sorted(natural_le::<O>(), self.entries())
        &&& entries_ok(natural_le::<O>(), self.entries())
    }

    closed spec fn future(&self) -> Seq<O> {
        drained(natural_le::<O>(), self.entries())
    }

    fn next(&mut self) -> (r: Option<O>) {
        let ghost leq = natural_le::<O>();
        let ghost es = self.entries();
        if self.data.len() == 0 {
            proof {
                assert(es.len() == 0);
            }
            None
        } else {
            let entry = self.data.remove(0);
            let (out_v, mut prod) = entry;
            let ghost rest = prod.future();
            proof {
                lemma_natural_le_ordering::<O>();
                assert(es[0] == (out_v, rest));
                assert(entry_ok(leq, es[0]));
                assert(entries_view(self.data@) =~= es.drop_first());
                lemma_frontier_drop_first(leq, es);
            }
            let nxt = prod.next();
            match nxt {
                Some(y) => {
                    proof {
                        assert(y == rest[0]);
                        assert(prod.future() == rest.drop_first());
                        lemma_entry_ok_step(leq, es[0]);
                    }
                    let new_entry = (y, prod);
                    let ghost esnap = new_entry;
                    let ghost dbefore = self.data@;
                    let ghost tail = entries_view(self.data@);
                    crate::merge_sorted::frontier_insert(&mut self.data, new_entry);
                    proof {
                        let xv = (rest[0], rest.drop_first());
                        assert(self.entries() == slide(leq, xv, tail));
                        lemma_slide_sorted(leq, xv, tail);
                        lemma_slide_entries_ok(leq, xv, tail);
                        assert(self.future() =~= old(self).future().drop_first());
                        let mid = choose|j: int|
                            0 <= j <= dbefore.len() && self.data@ == dbefore.insert(j, esnap);
                        dbefore.insert_ensures(mid, esnap);
                        assert forall|i: int| 0 <= i < self.data@.len() implies (
                        #[trigger] self.data@[i]).1.wf() by {
                            if i < mid {
                                assert(self.data@[i] == dbefore[i]);
                                assert(dbefore[i] == old(self).data@[i + 1]);
                            } else if i == mid {
                                assert(self.data@[i] == esnap);
                            } else {
                                assert(self.data@[i] == dbefore[i - 1]);
                                assert(dbefore[i - 1] == old(self).data@[i]);
                            }
                        }
                    }
                    Some(out_v)
                },
                None => {
                    proof {
                        assert(rest.len() == 0);
                        assert(self.future() =~= old(self).future().drop_first());
                    }
                    Some(out_v)
                },
            }
        }
    }
}

/// Builds the k-way merge of a runtime collection of producers under the
/// natural order. Each producer is asked for its first element; exhausted
/// producers are discarded and the rest seed the sorted frontier. The
/// future output is the sorted union of everything the producers held.
pub fn merge_dyn<O, P>(data: Vec<P>) -> (r: MergeDyn<O, P>) where
    O: Ordered,
    P: Producer<O>,

    requires
        forall|i: int| 0 <= i < data@.len() ==> (#[trigger] data@[i]).wf(),
        forall|i: int|
            0 <= i < data@.len() ==> vstd::relations::sorted_by(
                (#[trigger] data@[i]).future(),
                natural_le::<O>(),
            ),
    ensures
        r.wf(),
        r.future().to_multiset() == combined(futures_view(data@)),
        r.future().len() == total_len(futures_view(data@)),
        vstd::relations::sorted_by(r.future(), natural_le::<O>()),
{
    let ghost leq = natural_le::<O>();
    let ghost futs = futures_view(data@);
    let mut pending = data;
    let mut frontier: Vec<(O, P)> = Vec::new();
    proof {
        lemma_natural_le_ordering::<O>();
        assert(frontier_contents(entries_view(frontier@)) =~= Multiset::<O>::empty());
        assert(combined(futures_view(pending@)) == combined(futs));
    }
    while pending.len() > 0
        invariant
            leq == natural_le::<O>(),
            forall|i: int| 0 <= i < pending@.len() ==> (#[trigger] pending@[i]).wf(),
            forall|i: int|
                0 <= i < pending@.len() ==> vstd::relations::sorted_by(
                    (#[trigger] pending@[i]).future(),
                    natural_le::<O>(),
                ),
            forall|i: int| 0 <= i < frontier@.len() ==> (#[trigger] frontier@[i]).1.wf(),
            frontier_sorted(natural_le::<O>(), entries_view(frontier@)),
            entries_ok(natural_le::<O>(), entries_view(frontier@)),
            frontier_contents(entries_view(frontier@)).add(
                combined(futures_view(pending@)),
            ) =~= combined(futs),
        decreases pending@.len(),
    {
        broadcast use vstd::multiset::group_multiset_axioms;

        let ghost pstart = pending@;
        let ghost pfuts = futures_view(pending@);
        let mut p = pending.remove(0);
        let ghost pf = p.future();
        proof {
            lemma_natural_le_ordering::<O>();
            assert(p == pstart[0]);
            assert(p.wf() && vstd::relations::sorted_by(pf, natural_le::<O>())) by {
                assert(pstart[0].wf());
                assert(vstd::relations::sorted_by(pstart[0].future(), natural_le::<O>()));
            }
            assert(pfuts[0] == pf);
            assert(futures_view(pending@) =~= pfuts.drop_first());
            assert(combined(pfuts) == pf.to_multiset().add(combined(pfuts.drop_first())));
        }
        let nxt = p.next();
        match nxt {
            None => {
                proof {
                    vstd::seq_lib::to_multiset_len(pf);
                    assert(pf.to_multiset() =~= Multiset::<O>::empty());
                }
            },
            Some(v) => {
                let entry = (v, p);
                let ghost esnap = entry;
                let ghost fbefore = frontier@;
                let ghost tail = entries_view(frontier@);
                let ghost xv = (v, entry.1.future());
                proof {
                    assert(entry_ok(natural_le::<O>(), xv)) by {
                        assert(seq![xv.0] + xv.1 =~= pf);
                    }
                }
                crate::merge_sorted::frontier_insert(&mut frontier, entry);
                proof {
                    lemma_slide_sorted(leq, xv, tail);
                    lemma_slide_entries_ok(leq, xv, tail);
                    crate::frontier::lemma_slide_contents(leq, xv, tail);
                    assert(entry_contents(xv) =~= pf.to_multiset()) by {
                        broadcast use vstd::seq_lib::group_to_multiset_ensures;

                        assert(pf.drop_first() =~= pf.remove(0));
                        assert(pf.remove(0).to_multiset() =~= pf.to_multiset().remove(pf[0]));
                        assert(pf.to_multiset().contains(pf[0])) by {
                            assert(pf.contains(pf[0]));
                        }
                    }
                    let mid = choose|j: int|
                        0 <= j <= fbefore.len() && frontier@ == fbefore.insert(j, esnap);
                    fbefore.insert_ensures(mid, esnap);
                    assert forall|i: int| 0 <= i < frontier@.len() implies (
                    #[trigger] frontier@[i]).1.wf() by {
                        if i < mid {
                            assert(frontier@[i] == fbefore[i]);
                        } else if i == mid {
                            assert(frontier@[i] == esnap);
                        } else {
                            assert(frontier@[i] == fbefore[i - 1]);
                        }
                    }
                }
            },
        }
    }
    let r = MergeDyn { data: frontier };
    proof {
        assert(futures_view(pending@).len() == 0);
        assert(combined(futures_view(pending@)) =~= Multiset::<O>::empty()) by {
            broadcast use vstd::multiset::group_multiset_axioms;

        }
        assert(frontier_contents(r.entries()) =~= combined(futs)) by {
            broadcast use vstd::multiset::group_multiset_axioms;

        }
        lemma_drained_contents(leq, r.entries());
        lemma_drained_len(leq, r.entries());
        lemma_frontier_weight_is_contents_len(r.entries());
        lemma_combined_len(futs);
        lemma_drained_sorted(leq, r.entries());
    }
    r
}

/// Streams the sorted union of a runtime collection of producers under an
/// explicit comparator, keeping one (frontier value, source) entry per still-
/// active producer, sorted ascending by frontier value.
pub struct MergeDynBy<O, P, F> {
    data: Vec<(O, P)>,
    comparator: F,
}

impl<O, P: Producer<O>, F: Comparator<O>> MergeDynBy<O, P, F> {
    spec fn entries(&self) -> Seq<(O, Seq<O>)> {
        entries_view(self.data@)
    }
}

impl<O, P: Producer<O>, F: Comparator<O>> Producer<O> for MergeDynBy<O, P, F> {
    closed spec fn wf(&self) -> bool {
        &&& forall|i: int| 0 <= i < self.data@.len() ==> (#[trigger] self.data@[i]).1.wf()
        &&& frontier_sorted(comparator_le(self.comparator), self.entries())
        &&& entries_ok(comparator_le(self.comparator), self.entries())
    }

    closed spec fn future(&self) -> Seq<O> {
        drained(comparator_le(self.comparator), self.entries())
    }

    fn next(&mut self) -> (r: Option<O>) {
        let ghost leq = comparator_le(self.comparator);
        let ghost es = self.entries();
        if self.data.len() == 0 {
            proof {
                assert(es.len() == 0);
            }
            None
        } else {
            let entry = self.data.remove(0);
            let (out_v, mut prod) = entry;
            let ghost rest = prod.future();
            proof {
                lemma_comparator_le_ordering(self.comparator);
                assert(es[0] == (out_v, rest));
                assert(entry_ok(leq, es[0]));
                assert(entries_view(self.data@) =~= es.drop_first());
                lemma_frontier_drop_first(leq, es);
            }
            let nxt = prod.next();
            match nxt {
                Some(y) => {
                    proof {
                        assert(y == rest[0]);
                        assert(prod.future() == rest.drop_first());
                        lemma_entry_ok_step(leq, es[0]);
                    }
                    let new_entry = (y, prod);
                    let ghost esnap = new_entry;
                    let ghost dbefore = self.data@;
                    let ghost tail = entries_view(self.data@);
                    frontier_insert_by(&mut self.data, new_entry, &self.comparator);
                    proof {
                        let xv = (rest[0], rest.drop_first());
                        assert(self.entries() == slide(leq, xv, tail));
                        lemma_slide_sorted(leq, xv, tail);
                        lemma_slide_entries_ok(leq, xv, tail);
                        assert(self.future() =~= old(self).future().drop_first());
                        let mid = choose|j: int|
                            0 <= j <= dbefore.len() && self.data@ == dbefore.insert(j, esnap);
                        dbefore.insert_ensures(mid, esnap);
                        assert forall|i: int| 0 <= i < self.data@.len() implies (
                        #[trigger] self.data@[i]).1.wf() by {
                            if i < mid {
                                assert(self.data@[i] == dbefore[i]);
                                assert(dbefore[i] == old(self).data@[i + 1]);
                            } else if i == mid {
                                assert(self.data@[i] == esnap);
                            } else {
                                assert(self.data@[i] == dbefore[i - 1]);
                                assert(dbefore[i - 1] == old(self).data@[i]);
                            }
                        }
                    }
                    Some(out_v)
                },
                None => {
                    proof {
                        assert(rest.len() == 0);
                        assert(self.future() =~= old(self).future().drop_first());
                    }
                    Some(out_v)
                },
            }
        }
    }
}

/// Builds the k-way merge of a runtime collection of producers under an
/// explicit comparator. Each producer is asked for its first element; exhausted
/// producers are discarded and the rest seed the sorted frontier. The
/// future output is the sorted union of everything the producers held.
pub fn merge_dyn_by<O, P, F>(data: Vec<P>, comparator: F) -> (r: MergeDynBy<O, P, F>) where
    P: Producer<O>,
    F: Comparator<O>,

    requires
        forall|i: int| 0 <= i < data@.len() ==> (#[trigger] data@[i]).wf(),
        forall|i: int|
            0 <= i < data@.len() ==> vstd::relations::sorted_by(
                (#[trigger] data@[i]).future(),
                comparator_le(comparator),
            ),
    ensures
        r.wf(),
        r.future().to_multiset() == combined(futures_view(data@)),
        r.future().len() == total_len(futures_view(data@)),
        vstd::relations::sorted_by(r.future(), comparator_le(comparator)),
{
    let ghost leq = comparator_le(comparator);
    let ghost futs = futures_view(data@);
    let mut pending = data;
    let mut frontier: Vec<(O, P)> = Vec::new();
    proof {
        lemma_comparator_le_ordering(comparator);
        assert(frontier_contents(entries_view(frontier@)) =~= Multiset::<O>::empty());
        assert(combined(futures_view(pending@)) == combined(futs));
    }
    while pending.len() > 0
        invariant
            leq == comparator_le(comparator),
            forall|i: int| 0 <= i < pending@.len() ==> (#[trigger] pending@[i]).wf(),
            forall|i: int|
                0 <= i < pending@.len() ==> vstd::relations::sorted_by(
                    (#[trigger] pending@[i]).future(),
                    comparator_le(comparator),
                ),
            forall|i: int| 0 <= i < frontier@.len() ==> (#[trigger] frontier@[i]).1.wf(),
            frontier_sorted(comparator_le(comparator), entries_view(frontier@)),
            entries_ok(comparator_le(comparator), entries_view(frontier@)),
            frontier_contents(entries_view(frontier@)).add(
                combined(futures_view(pending@)),
            ) =~= combined(futs),
        decreases pending@.len(),
    {
        broadcast use vstd::multiset::group_multiset_axioms;

        let ghost pstart = pending@;
        let ghost pfuts = futures_view(pending@);
        let mut p = pending.remove(0);
        let ghost pf = p.future();
        proof {
            lemma_comparator_le_ordering(comparator);
            assert(p == pstart[0]);
            assert(p.wf() && vstd::relations::sorted_by(pf, comparator_le(comparator))) by {
                assert(pstart[0].wf());
                assert(vstd::relations::sorted_by(pstart[0].future(), comparator_le(comparator)));
            }
            assert(pfuts[0] == pf);
            assert(futures_view(pending@) =~= pfuts.drop_first());
            assert(combined(pfuts) == pf.to_multiset().add(combined(pfuts.drop_first())));
        }
        let nxt = p.next();
        match nxt {
            None => {
                proof {
                    vstd::seq_lib::to_multiset_len(pf);
                    assert(pf.to_multiset() =~= Multiset::<O>::empty());
                }
            },
            Some(v) => {
                let entry = (v, p);
                let ghost esnap = entry;
                let ghost fbefore = frontier@;
                let ghost tail = entries_view(frontier@);
                let ghost xv = (v, entry.1.future());
                proof {
                    assert(entry_ok(comparator_le(comparator), xv)) by {
                        assert(seq![xv.0] + xv.1 =~= pf);
                    }
                }
                frontier_insert_by(&mut frontier, entry, &comparator);
                proof {
                    lemma_slide_sorted(leq, xv, tail);
                    lemma_slide_entries_ok(leq, xv, tail);
                    crate::frontier::lemma_slide_contents(leq, xv, tail);
                    assert(entry_contents(xv) =~= pf.to_multiset()) by {
                        broadcast use vstd::seq_lib::group_to_multiset_ensures;

                        assert(pf.drop_first() =~= pf.remove(0));
                        assert(pf.remove(0).to_multiset() =~= pf.to_multiset().remove(pf[0]));
                        assert(pf.to_multiset().contains(pf[0])) by {
                            assert(pf.contains(pf[0]));
                        }
                    }
                    let mid = choose|j: int|
                        0 <= j <= fbefore.len() && frontier@ == fbefore.insert(j, esnap);
                    fbefore.insert_ensures(mid, esnap);
                    assert forall|i: int| 0 <= i < frontier@.len() implies (
                    #[trigger] frontier@[i]).1.wf() by {
                        if i < mid {
                            assert(frontier@[i] == fbefore[i]);
                        } else if i == mid {
                            assert(frontier@[i] == esnap);
                        } else {
                            assert(frontier@[i] == fbefore[i - 1]);
                        }
                    }
                }
            },
        }
    }
    let r = MergeDynBy { data: frontier, comparator };
    proof {
        assert(futures_view(pending@).len() == 0);
        assert(combined(futures_view(pending@)) =~= Multiset::<O>::empty()) by {
            broadcast use vstd::multiset::group_multiset_axioms;

        }
        assert(frontier_contents(r.entries()) =~= combined(futs)) by {
            broadcast use vstd::multiset::group_multiset_axioms;

        }
        lemma_drained_contents(leq, r.entries());
        lemma_drained_len(leq, r.entries());
        lemma_frontier_weight_is_contents_len(r.entries());
        lemma_combined_len(futs);
        lemma_drained_sorted(leq, r.entries());
    }
    r
}

/// Streams the sorted union of a runtime collection of producers under a
/// derived-key order, keeping one (frontier value, source) entry per still-
/// active producer, sorted ascending by frontier value.
pub struct MergeDynByKey<O, P, F> {
    data: Vec<(O, P)>,
    key: F,
}

impl<O, P: Producer<O>, F: KeyExtractor<O>> MergeDynByKey<O, P, F> {
    spec fn entries(&self) -> Seq<(O, Seq<O>)> {
        entries_view(self.data@)
    }
}

impl<O, P: Producer<O>, F: KeyExtractor<O>> Producer<O> for MergeDynByKey<O, P, F> {
    closed spec fn wf(&self) -> bool {
        &&& forall|i: int| 0 <= i < self.data@.len() ==> (#[trigger] self.data@[i]).1.wf()
        &&& frontier_sorted(key_le(self.key), self.entries())
        &&& entries_ok(key_le(self.key), self.entries())
    }

    closed spec fn future(&self) -> Seq<O> {
        drained(key_le(self.key), self.entries())
    }

    fn next(&mut self) -> (r: Option<O>) {
        let ghost leq = key_le(self.key);
        let ghost es = self.entries();
        if self.data.len() == 0 {
            proof {
                assert(es.len() == 0);
            }
            None
        } else {
            let entry = self.data.remove(0);
            let (out_v, mut prod) = entry;
            let ghost rest = prod.future();
            proof {
                lemma_key_le_ordering(self.key);
                assert(es[0] == (out_v, rest));
                assert(entry_ok(leq, es[0]));
                assert(entries_view(self.data@) =~= es.drop_first());
                lemma_frontier_drop_first(leq, es);
            }
            let nxt = prod.next();
            match nxt {
                Some(y) => {
                    proof {
                        assert(y == rest[0]);
                        assert(prod.future() == rest.drop_first());
                        lemma_entry_ok_step(leq, es[0]);
                    }
                    let new_entry = (y, prod);
                    let ghost esnap = new_entry;
                    let ghost dbefore = self.data@;
                    let ghost tail = entries_view(self.data@);
                    frontier_insert_by_key(&mut self.data, new_entry, &self.key);
                    proof {
                        let xv = (rest[0], rest.drop_first());
                        assert(self.entries() == slide(leq, xv, tail));
                        lemma_slide_sorted(leq, xv, tail);
                        lemma_slide_entries_ok(leq, xv, tail);
                        assert(self.future() =~= old(self).future().drop_first());
                        let mid = choose|j: int|
                            0 <= j <= dbefore.len() && self.data@ == dbefore.insert(j, esnap);
                        dbefore.insert_ensures(mid, esnap);
                        assert forall|i: int| 0 <= i < self.data@.len() implies (
                        #[trigger] self.data@[i]).1.wf() by {
                            if i < mid {
                                assert(self.data@[i] == dbefore[i]);
                                assert(dbefore[i] == old(self).data@[i + 1]);
                            } else if i == mid {
                                assert(self.data@[i] == esnap);
                            } else {
                                assert(self.data@[i] == dbefore[i - 1]);
                                assert(dbefore[i - 1] == old(self).data@[i]);
                            }
                        }
                    }
                    Some(out_v)
                },
                None => {
                    proof {
                        assert(rest.len() == 0);
                        assert(self.future() =~= old(self).future().drop_first());
                    }
                    Some(out_v)
                },
            }
        }
    }
}

/// Builds the k-way merge of a runtime collection of producers under a
/// derived-key order. Each producer is asked for its first element; exhausted
/// producers are discarded and the rest seed the sorted frontier. The
/// future output is the sorted union of everything the producers held.
pub fn merge_dyn_by_key<O, P, F>(data: Vec<P>, key: F) -> (r: MergeDynByKey<O, P, F>) where
    P: Producer<O>,
    F: KeyExtractor<O>,

    requires
        forall|i: int| 0 <= i < data@.len() ==> (#[trigger] data@[i]).wf(),
        forall|i: int|
            0 <= i < data@.len() ==> vstd::relations::sorted_by(
                (#[trigger] data@[i]).future(),
                key_le(key),
            ),
    ensures
        r.wf(),
        r.future().to_multiset() == combined(futures_view(data@)),
        r.future().len() == total_len(futures_view(data@)),
        vstd::relations::sorted_by(r.future(), key_le(key)),
{
    let ghost leq = key_le(key);
    let ghost futs = futures_view(data@);
    let mut pending = data;
    let mut frontier: Vec<(O, P)> = Vec::new();
    proof {
        lemma_key_le_ordering(key);
        assert(frontier_contents(entries_view(frontier@)) =~= Multiset::<O>::empty());
        assert(combined(futures_view(pending@)) == combined(futs));
    }
    while pending.len() > 0
        invariant
            leq == key_le(key),
            forall|i: int| 0 <= i < pending@.len() ==> (#[trigger] pending@[i]).wf(),
            forall|i: int|
                0 <= i < pending@.len() ==> vstd::relations::sorted_by(
                    (#[trigger] pending@[i]).future(),
                    key_le(key),
                ),
            forall|i: int| 0 <= i < frontier@.len() ==> (#[trigger] frontier@[i]).1.wf(),
            frontier_sorted(key_le(key), entries_view(frontier@)),
            entries_ok(key_le(key), entries_view(frontier@)),
            frontier_contents(entries_view(frontier@)).add(
                combined(futures_view(pending@)),
            ) =~= combined(futs),
        decreases pending@.len(),
    {
        broadcast use vstd::multiset::group_multiset_axioms;

        let ghost pstart = pending@;
        let ghost pfuts = futures_view(pending@);
        let mut p = pending.remove(0);
        let ghost pf = p.future();
        proof {
            lemma_key_le_ordering(key);
            assert(p == pstart[0]);
            assert(p.wf() && vstd::relations::sorted_by(pf, key_le(key))) by {
                assert(pstart[0].wf());
                assert(vstd::relations::sorted_by(pstart[0].future(), key_le(key)));
            }
            assert(pfuts[0] == pf);
            assert(futures_view(pending@) =~= pfuts.drop_first());
            assert(combined(pfuts) == pf.to_multiset().add(combined(pfuts.drop_first())));
        }
        let nxt = p.next();
        match nxt {
            None => {
                proof {
                    vstd::seq_lib::to_multiset_len(pf);
                    assert(pf.to_multiset() =~= Multiset::<O>::empty());
                }
            },
            Some(v) => {
                let entry = (v, p);
                let ghost esnap = entry;
                let ghost fbefore = frontier@;
                let ghost tail = entries_view(frontier@);
                let ghost xv = (v, entry.1.future());
                proof {
                    assert(entry_ok(key_le(key), xv)) by {
                        assert(seq![xv.0] + xv.1 =~= pf);
                    }
                }
                frontier_insert_by_key(&mut frontier, entry, &key);
                proof {
                    lemma_slide_sorted(leq, xv, tail);
                    lemma_slide_entries_ok(leq, xv, tail);
                    crate::frontier::lemma_slide_contents(leq, xv, tail);
                    assert(entry_contents(xv) =~= pf.to_multiset()) by {
                        broadcast use vstd::seq_lib::group_to_multiset_ensures;

                        assert(pf.drop_first() =~= pf.remove(0));
                        assert(pf.remove(0).to_multiset() =~= pf.to_multiset().remove(pf[0]));
                        assert(pf.to_multiset().contains(pf[0])) by {
                            assert(pf.contains(pf[0]));
                        }
                    }
                    let mid = choose|j: int|
                        0 <= j <= fbefore.len() && frontier@ == fbefore.insert(j, esnap);
                    fbefore.insert_ensures(mid, esnap);
                    assert forall|i: int| 0 <= i < frontier@.len() implies (
                    #[trigger] frontier@[i]).1.wf() by {
                        if i < mid {
                            assert(frontier@[i] == fbefore[i]);
                        } else if i == mid {
                            assert(frontier@[i] == esnap);
                        } else {
                            assert(frontier@[i] == fbefore[i - 1]);
                        }
                    }
                }
            },
        }
    }
    let r = MergeDynByKey { data: frontier, key };
    proof {
        assert(futures_view(pending@).len() == 0);
        assert(combined(futures_view(pending@)) =~= Multiset::<O>::empty()) by {
            broadcast use vstd::multiset::group_multiset_axioms;

        }
        assert(frontier_contents(r.entries()) =~= combined(futs)) by {
            broadcast use vstd::multiset::group_multiset_axioms;

        }
        lemma_drained_contents(leq, r.entries());
        lemma_drained_len(leq, r.entries());
        lemma_frontier_weight_is_contents_len(r.entries());
        lemma_combined_len(futs);
        lemma_drained_sorted(leq, r.entries());
    }
    r
}

} // verus!
