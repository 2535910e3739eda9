//! The mathematical model of the k-way merge: a frontier of (value,
//! pending-elements) entries, one per still-active source, kept sorted by
//! value. One step emits the head entry's value; if its source has more, the
//! freshly pulled value slides right to its sorted position, otherwise the
//! entry is removed. `drained` is the exact stream such a frontier still
//! owes, and the lemmas here are the laws of that stream: its length, its
//! multiset of elements, and sortedness.

use vstd::prelude::*;
use vstd::multiset::Multiset;
use vstd::relations::{sorted_by, strongly_connected, transitive};

use crate::producer::Producer;

verus! {

/// The number of elements a frontier entry still owes: its value plus its
/// pending elements.
pub open spec fn entry_weight<T>(e: (T, Seq<T>)) -> nat {
    1 + e.1.len()
}

/// The number of elements a frontier still owes.
pub open spec fn frontier_weight<T>(s: Seq<(T, Seq<T>)>) -> nat
    decreases s.len(),
{
    if s.len() == 0 {
        0
    } else {
        entry_weight(s[0]) + frontier_weight(s.drop_first())
    }
}

/// The multiset of elements a frontier entry still owes.
pub open spec fn entry_contents<T>(e: (T, Seq<T>)) -> Multiset<T> {
    e.1.to_multiset().insert(e.0)
}

/// The multiset of elements a frontier still owes.
pub open spec fn frontier_contents<T>(s: Seq<(T, Seq<T>)>) -> Multiset<T>
    decreases s.len(),
{
    if s.len() == 0 {
        Multiset::<T>::empty()
    } else {
        entry_contents(s[0]).add(frontier_contents(s.drop_first()))
    }
}

/// Frontier entries are ordered by their frontier values.
pub open spec fn entry_le<T>(leq: spec_fn(T, T) -> bool) -> spec_fn(
    (T, Seq<T>),
    (T, Seq<T>),
) -> bool {
    |x: (T, Seq<T>), y: (T, Seq<T>)| leq(x.0, y.0)
}

/// The frontier invariant: entries sorted ascending by frontier value.
pub open spec fn frontier_sorted<T>(leq: spec_fn(T, T) -> bool, s: Seq<(T, Seq<T>)>) -> bool {
    sorted_by(s, entry_le(leq))
}

/// One entry's stream is ascending: its frontier value precedes its pending
/// elements and those are sorted.
pub open spec fn entry_ok<T>(leq: spec_fn(T, T) -> bool, e: (T, Seq<T>)) -> bool {
    sorted_by(seq![e.0] + e.1, leq)
}

/// Every entry's stream is ascending.
pub open spec fn entries_ok<T>(leq: spec_fn(T, T) -> bool, s: Seq<(T, Seq<T>)>) -> bool {
    forall|i: int| 0 <= i < s.len() ==> entry_ok(leq, #[trigger] s[i])
}

/// The multiset union of a collection of element streams.
pub open spec fn combined<T>(futs: Seq<Seq<T>>) -> Multiset<T>
    decreases futs.len(),
{
    if futs.len() == 0 {
        Multiset::<T>::empty()
    } else {
        futs[0].to_multiset().add(combined(futs.drop_first()))
    }
}

/// The total length of a collection of element streams.
pub open spec fn total_len<T>(futs: Seq<Seq<T>>) -> nat
    decreases futs.len(),
{
    if futs.len() == 0 {
        0
    } else {
        futs[0].len() + total_len(futs.drop_first())
    }
}

/// The frontier a sequence of (value, producer) pairs stands for.
pub open spec fn entries_view<O, P: Producer<O>>(s: Seq<(O, P)>) -> Seq<(O, Seq<O>)> {
    s.map_values(|e: (O, P)| (e.0, e.1.future()))
}

/// The streams a sequence of producers stands for.
pub open spec fn futures_view<O, P: Producer<O>>(s: Seq<P>) -> Seq<Seq<O>> {
    s.map_values(|p: P| p.future())
}

pub proof fn lemma_frontier_weight_cons<T>(e: (T, Seq<T>), s: Seq<(T, Seq<T>)>)
    ensures
        frontier_weight(seq![e] + s) == entry_weight(e) + frontier_weight(s),
{
    let c = seq![e] + s;
    assert(c[0] == e);
    assert(c.drop_first() =~= s);
}

pub proof fn lemma_frontier_contents_cons<T>(e: (T, Seq<T>), s: Seq<(T, Seq<T>)>)
    ensures
        frontier_contents(seq![e] + s) == entry_contents(e).add(frontier_contents(s)),
{
    let c = seq![e] + s;
    assert(c[0] == e);
    assert(c.drop_first() =~= s);
}

pub proof fn lemma_frontier_contents_push<T>(s: Seq<(T, Seq<T>)>, e: (T, Seq<T>))
    ensures
        frontier_contents(s.push(e)) =~= frontier_contents(s).add(entry_contents(e)),
    decreases s.len(),
{
    broadcast use vstd::multiset::group_multiset_axioms;

    if s.len() == 0 {
        assert(s.push(e)[0] == e);
        assert(s.push(e).drop_first() =~= Seq::<(T, Seq<T>)>::empty());
        assert(s.push(e).len() == 1);
        assert(frontier_contents(Seq::<(T, Seq<T>)>::empty()) == Multiset::<T>::empty());
        assert(frontier_contents(s.push(e)) == entry_contents(e).add(Multiset::<T>::empty()));
    } else {
        assert(s.push(e)[0] == s[0]);
        assert(s.push(e).drop_first() =~= s.drop_first().push(e));
        lemma_frontier_contents_push(s.drop_first(), e);
    }
}

/// The entry order inherits totality and transitivity from the element
/// order.
pub proof fn lemma_entry_le_ordering<T>(leq: spec_fn(T, T) -> bool)
    requires
        strongly_connected(leq),
        transitive(leq),
    ensures
        strongly_connected(entry_le(leq)),
        transitive(entry_le(leq)),
{
}

/// Where a fresh head entry comes to rest: it slides right past every entry
/// whose value is strictly below its own, then the frontier resumes.
pub open spec fn slide<T>(
    leq: spec_fn(T, T) -> bool,
    x: (T, Seq<T>),
    tail: Seq<(T, Seq<T>)>,
) -> Seq<(T, Seq<T>)>
    decreases tail.len(),
{
    if tail.len() == 0 {
        seq![x]
    } else if !leq(x.0, tail[0].0) {
        seq![tail[0]] + slide(leq, x, tail.drop_first())
    } else {
        seq![x] + tail
    }
}

pub proof fn lemma_slide_weight<T>(leq: spec_fn(T, T) -> bool, x: (T, Seq<T>), tail: Seq<(T, Seq<T>)>)
    ensures
        frontier_weight(slide(leq, x, tail)) == entry_weight(x) + frontier_weight(tail),
    decreases tail.len(),
{
    if tail.len() == 0 {
        lemma_frontier_weight_cons(x, Seq::<(T, Seq<T>)>::empty());
        assert(seq![x] + Seq::<(T, Seq<T>)>::empty() =~= seq![x]);
    } else if !leq(x.0, tail[0].0) {
        lemma_slide_weight(leq, x, tail.drop_first());
        lemma_frontier_weight_cons(tail[0], slide(leq, x, tail.drop_first()));
        lemma_frontier_weight_cons(tail[0], tail.drop_first());
        assert(seq![tail[0]] + tail.drop_first() =~= tail);
    } else {
        lemma_frontier_weight_cons(x, tail);
    }
}

pub proof fn lemma_slide_contents<T>(
    leq: spec_fn(T, T) -> bool,
    x: (T, Seq<T>),
    tail: Seq<(T, Seq<T>)>,
)
    ensures
        frontier_contents(slide(leq, x, tail)) =~= frontier_contents(tail).add(entry_contents(x)),
    decreases tail.len(),
{
    broadcast use vstd::multiset::group_multiset_axioms;

    if tail.len() == 0 {
        lemma_frontier_contents_cons(x, Seq::<(T, Seq<T>)>::empty());
        assert(seq![x] + Seq::<(T, Seq<T>)>::empty() =~= seq![x]);
    } else if !leq(x.0, tail[0].0) {
        lemma_slide_contents(leq, x, tail.drop_first());
        lemma_frontier_contents_cons(tail[0], slide(leq, x, tail.drop_first()));
        lemma_frontier_contents_cons(tail[0], tail.drop_first());
        assert(seq![tail[0]] + tail.drop_first() =~= tail);
    } else {
        lemma_frontier_contents_cons(x, tail);
    }
}

/// The head of a slid frontier is the slid entry or the old head.
pub proof fn lemma_slide_first<T>(leq: spec_fn(T, T) -> bool, x: (T, Seq<T>), tail: Seq<(T, Seq<T>)>)
    ensures
        slide(leq, x, tail).len() == tail.len() + 1,
        slide(leq, x, tail)[0] == x || (tail.len() > 0 && slide(leq, x, tail)[0] == tail[0]),
    decreases tail.len(),
{
    if tail.len() > 0 && !leq(x.0, tail[0].0) {
        lemma_slide_first(leq, x, tail.drop_first());
    }
}

/// Sliding into a sorted frontier keeps it sorted.
pub proof fn lemma_slide_sorted<T>(leq: spec_fn(T, T) -> bool, x: (T, Seq<T>), tail: Seq<(T, Seq<T>)>)
    requires
        strongly_connected(leq),
        transitive(leq),
        frontier_sorted(leq, tail),
    ensures
        frontier_sorted(leq, slide(leq, x, tail)),
    decreases tail.len(),
{
    let el = entry_le(leq);
    lemma_entry_le_ordering(leq);
    if tail.len() == 0 {
    } else if !leq(x.0, tail[0].0) {
        assert(sorted_by(tail.drop_first(), el)) by {
            assert forall|i: int, j: int| 0 <= i < j < tail.drop_first().len() implies #[trigger] el(
                tail.drop_first()[i],
                tail.drop_first()[j],
            ) by {
                assert(el(tail[i + 1], tail[j + 1]));
            }
        }
        lemma_slide_sorted(leq, x, tail.drop_first());
        lemma_slide_first(leq, x, tail.drop_first());
        let rest = slide(leq, x, tail.drop_first());
        assert(el(tail[0], x)) by {
            assert(leq(tail[0].0, x.0));
        }
        if tail.drop_first().len() > 0 {
            assert(el(tail[0], tail.drop_first()[0])) by {
                assert(el(tail[0], tail[1]));
            }
        }
        assert(el(tail[0], rest[0]));
        crate::merge_spec::lemma_cons_sorted(el, tail[0], rest);
    } else {
        crate::merge_spec::lemma_cons_sorted(el, x, tail);
    }
}

/// Sliding keeps every entry's stream ascending.
pub proof fn lemma_slide_entries_ok<T>(
    leq: spec_fn(T, T) -> bool,
    x: (T, Seq<T>),
    tail: Seq<(T, Seq<T>)>,
)
    requires
        entry_ok(leq, x),
        entries_ok(leq, tail),
    ensures
        entries_ok(leq, slide(leq, x, tail)),
    decreases tail.len(),
{
    if tail.len() == 0 {
        assert forall|i: int| 0 <= i < slide(leq, x, tail).len() implies entry_ok(
            leq,
            #[trigger] slide(leq, x, tail)[i],
        ) by {
            assert(slide(leq, x, tail)[0] == x);
        }
    } else if !leq(x.0, tail[0].0) {
        assert(entries_ok(leq, tail.drop_first())) by {
            assert forall|i: int| 0 <= i < tail.drop_first().len() implies entry_ok(
                leq,
                #[trigger] tail.drop_first()[i],
            ) by {
                assert(tail.drop_first()[i] == tail[i + 1]);
            }
        }
        lemma_slide_entries_ok(leq, x, tail.drop_first());
        let rest = slide(leq, x, tail.drop_first());
        assert forall|i: int| 0 <= i < slide(leq, x, tail).len() implies entry_ok(
            leq,
            #[trigger] slide(leq, x, tail)[i],
        ) by {
            if i == 0 {
                assert(slide(leq, x, tail)[0] == tail[0]);
            } else {
                assert(slide(leq, x, tail)[i] == rest[i - 1]);
            }
        }
    } else {
        assert forall|i: int| 0 <= i < slide(leq, x, tail).len() implies entry_ok(
            leq,
            #[trigger] slide(leq, x, tail)[i],
        ) by {
            if i == 0 {
                assert(slide(leq, x, tail)[0] == x);
            } else {
                assert(slide(leq, x, tail)[i] == tail[i - 1]);
            }
        }
    }
}

/// A scan that passed the first `j` entries and stopped identifies where a
/// slid entry comes to rest.
pub proof fn lemma_slide_position<T>(
    leq: spec_fn(T, T) -> bool,
    x: (T, Seq<T>),
    tail: Seq<(T, Seq<T>)>,
    j: int,
)
    requires
        0 <= j <= tail.len(),
        forall|k: int| 0 <= k < j ==> !leq(x.0, #[trigger] tail[k].0),
        j == tail.len() || leq(x.0, tail[j].0),
    ensures
        slide(leq, x, tail) == tail.take(j) + seq![x] + tail.skip(j),
    decreases j,
{
    if j == 0 {
        if tail.len() == 0 {
            assert(slide(leq, x, tail) =~= tail.take(0) + seq![x] + tail.skip(0));
        } else {
            assert(leq(x.0, tail[0].0));
            assert(slide(leq, x, tail) =~= tail.take(0) + seq![x] + tail.skip(0));
        }
    } else {
        assert(!leq(x.0, tail[0].0));
        assert(forall|k: int|
            0 <= k < j - 1 ==> !leq(x.0, #[trigger] tail.drop_first()[k].0)) by {
            assert(forall|k: int| 0 <= k < j - 1 ==> tail.drop_first()[k] == tail[k + 1]);
        }
        if j - 1 < tail.drop_first().len() {
            assert(tail.drop_first()[j - 1] == tail[j]);
        }
        lemma_slide_position(leq, x, tail.drop_first(), j - 1);
        assert(slide(leq, x, tail) =~= tail.take(j) + seq![x] + tail.skip(j)) by {
            assert(slide(leq, x, tail) == seq![tail[0]] + slide(leq, x, tail.drop_first()));
            assert(slide(leq, x, tail.drop_first()) == tail.drop_first().take(j - 1) + seq![x]
                + tail.drop_first().skip(j - 1));
            assert(tail.drop_first().take(j - 1) =~= tail.take(j).drop_first());
            assert(tail.drop_first().skip(j - 1) =~= tail.skip(j));
        }
    }
}

/// The exact stream a frontier still owes: emit the head entry's value; if
/// its source has pending elements the fresh value slides to its place,
/// otherwise the entry disappears.
pub open spec fn drained<T>(leq: spec_fn(T, T) -> bool, s: Seq<(T, Seq<T>)>) -> Seq<T>
    decreases frontier_weight(s),
    via drained_decreases::<T>
{
    if s.len() == 0 {
        Seq::<T>::empty()
    } else {
        let v = s[0].0;
        let rest = s[0].1;
        if rest.len() == 0 {
            seq![v] + drained(leq, s.drop_first())
        } else {
            seq![v] + drained(leq, slide(leq, (rest[0], rest.drop_first()), s.drop_first()))
        }
    }
}

#[via_fn]
proof fn drained_decreases<T>(leq: spec_fn(T, T) -> bool, s: Seq<(T, Seq<T>)>) {
    if s.len() > 0 {
        let rest = s[0].1;
        if rest.len() > 0 {
            lemma_slide_weight(leq, (rest[0], rest.drop_first()), s.drop_first());
        }
    }
}

/// The total number of elements a frontier still owes is its weight.
pub proof fn lemma_drained_len<T>(leq: spec_fn(T, T) -> bool, s: Seq<(T, Seq<T>)>)
    ensures
        drained(leq, s).len() == frontier_weight(s),
    decreases frontier_weight(s),
{
    if s.len() > 0 {
        let rest = s[0].1;
        if rest.len() == 0 {
            lemma_drained_len(leq, s.drop_first());
        } else {
            lemma_slide_weight(leq, (rest[0], rest.drop_first()), s.drop_first());
            lemma_drained_len(leq, slide(leq, (rest[0], rest.drop_first()), s.drop_first()));
        }
    }
}

/// A frontier's weight counts exactly the elements of its contents.
pub proof fn lemma_frontier_weight_is_contents_len<T>(s: Seq<(T, Seq<T>)>)
    ensures
        frontier_weight(s) == frontier_contents(s).len(),
    decreases s.len(),
{
    broadcast use vstd::seq_lib::group_to_multiset_ensures;
    broadcast use vstd::multiset::group_multiset_axioms;

    if s.len() > 0 {
        lemma_frontier_weight_is_contents_len(s.drop_first());
    }
}

/// A frontier emits exactly the elements it owes, each exactly once.
pub proof fn lemma_drained_contents<T>(leq: spec_fn(T, T) -> bool, s: Seq<(T, Seq<T>)>)
    ensures
        drained(leq, s).to_multiset() =~= frontier_contents(s),
    decreases frontier_weight(s),
{
    broadcast use vstd::seq_lib::group_to_multiset_ensures;
    broadcast use vstd::multiset::group_multiset_axioms;

    if s.len() > 0 {
        let v = s[0].0;
        let rest = s[0].1;
        if rest.len() == 0 {
            lemma_drained_len(leq, s.drop_first());
            lemma_drained_contents(leq, s.drop_first());
            vstd::seq_lib::lemma_multiset_commutative(seq![v], drained(leq, s.drop_first()));
            assert(seq![v] =~= Seq::<T>::empty().push(v));
            assert(rest.to_multiset() =~= Multiset::<T>::empty());
        } else {
            let x = (rest[0], rest.drop_first());
            lemma_slide_weight(leq, x, s.drop_first());
            lemma_drained_contents(leq, slide(leq, x, s.drop_first()));
            lemma_slide_contents(leq, x, s.drop_first());
            vstd::seq_lib::lemma_multiset_commutative(
                seq![v],
                drained(leq, slide(leq, x, s.drop_first())),
            );
            assert(seq![v] =~= Seq::<T>::empty().push(v));
            assert(rest.drop_first() =~= rest.remove(0));
            assert(rest.remove(0).to_multiset() =~= rest.to_multiset().remove(rest[0]));
            assert(rest.to_multiset().contains(rest[0])) by {
                assert(rest.contains(rest[0]));
            }
        }
    }
}

/// The head entry's value of a well-formed frontier is a lower bound of
/// everything the frontier owes.
pub proof fn lemma_frontier_head_bound<T>(leq: spec_fn(T, T) -> bool, s: Seq<(T, Seq<T>)>)
    requires
        strongly_connected(leq),
        transitive(leq),
        frontier_sorted(leq, s),
        entries_ok(leq, s),
        s.len() > 0,
    ensures
        forall|w: T| #[trigger] frontier_contents(s).contains(w) ==> leq(s[0].0, w),
    decreases s.len(),
{
    broadcast use vstd::seq_lib::group_to_multiset_ensures;
    broadcast use vstd::multiset::group_multiset_axioms;

    let v = s[0].0;
    assert forall|w: T| #[trigger] frontier_contents(s).contains(w) implies leq(v, w) by {
        if entry_contents(s[0]).contains(w) {
            if w == v {
                assert(leq(v, v));
            } else {
                assert(s[0].1.to_multiset().contains(w));
                assert(s[0].1.contains(w));
                let j = choose|j: int| 0 <= j < s[0].1.len() && s[0].1[j] == w;
                assert(entry_ok(leq, s[0]));
                let c = seq![v] + s[0].1;
                assert(leq(c[0], c[j + 1]));
            }
        } else {
            assert(frontier_contents(s.drop_first()).contains(w));
            assert(s.drop_first().len() > 0) by {
                if s.drop_first().len() == 0 {
                    assert(frontier_contents(s.drop_first()) =~= Multiset::<T>::empty());
                }
            }
            assert(frontier_sorted(leq, s.drop_first())) by {
                let el = entry_le(leq);
                assert forall|i: int, j: int| 0 <= i < j < s.drop_first().len() implies #[trigger] el(
                    s.drop_first()[i],
                    s.drop_first()[j],
                ) by {
                    assert(el(s[i + 1], s[j + 1]));
                }
            }
            assert(entries_ok(leq, s.drop_first())) by {
                assert forall|i: int| 0 <= i < s.drop_first().len() implies entry_ok(
                    leq,
                    #[trigger] s.drop_first()[i],
                ) by {
                    assert(s.drop_first()[i] == s[i + 1]);
                }
            }
            lemma_frontier_head_bound(leq, s.drop_first());
            assert(leq(s.drop_first()[0].0, w));
            assert(entry_le(leq)(s[0], s[1]));
            assert(s.drop_first()[0] == s[1]);
            assert(leq(v, s[1].0));
        }
    }
}

/// The stream a well-formed frontier owes is sorted ascending.
pub proof fn lemma_drained_sorted<T>(leq: spec_fn(T, T) -> bool, s: Seq<(T, Seq<T>)>)
    requires
        strongly_connected(leq),
        transitive(leq),
        frontier_sorted(leq, s),
        entries_ok(leq, s),
    ensures
        sorted_by(drained(leq, s), leq),
    decreases frontier_weight(s),
{
    broadcast use vstd::seq_lib::group_to_multiset_ensures;
    broadcast use vstd::multiset::group_multiset_axioms;

    if s.len() > 0 {
        let v = s[0].0;
        let rest = s[0].1;
        let tail = s.drop_first();
        assert(frontier_sorted(leq, tail)) by {
            let el = entry_le(leq);
            assert forall|i: int, j: int| 0 <= i < j < tail.len() implies #[trigger] el(
                tail[i],
                tail[j],
            ) by {
                assert(el(s[i + 1], s[j + 1]));
            }
        }
        assert(entries_ok(leq, tail)) by {
            assert forall|i: int| 0 <= i < tail.len() implies entry_ok(
                leq,
                #[trigger] tail[i],
            ) by {
                assert(tail[i] == s[i + 1]);
            }
        }
        lemma_frontier_head_bound(leq, s);
        if rest.len() == 0 {
            lemma_drained_sorted(leq, tail);
            lemma_drained_contents(leq, tail);
            let dtail = drained(leq, tail);
            if dtail.len() > 0 {
                assert(dtail.to_multiset().contains(dtail[0])) by {
                    assert(dtail.contains(dtail[0]));
                }
                assert(frontier_contents(tail).contains(dtail[0]));
                assert(frontier_contents(s).contains(dtail[0])) by {
                    assert(frontier_contents(s) == entry_contents(s[0]).add(
                        frontier_contents(tail),
                    ));
                }
                assert(leq(v, dtail[0]));
            }
            crate::merge_spec::lemma_cons_sorted(leq, v, dtail);
        } else {
            let x = (rest[0], rest.drop_first());
            lemma_slide_weight(leq, x, tail);
            assert(entry_ok(leq, x)) by {
                let c0 = seq![v] + rest;
                let c1 = seq![rest[0]] + rest.drop_first();
                assert(c1 =~= rest);
                assert forall|i: int, j: int| 0 <= i < j < rest.len() implies #[trigger] leq(
                    rest[i],
                    rest[j],
                ) by {
                    assert(leq(c0[i + 1], c0[j + 1]));
                }
            }
            lemma_slide_sorted(leq, x, tail);
            lemma_slide_entries_ok(leq, x, tail);
            let snew = slide(leq, x, tail);
            lemma_drained_sorted(leq, snew);
            lemma_drained_contents(leq, snew);
            lemma_slide_contents(leq, x, tail);
            let dnew = drained(leq, snew);
            if dnew.len() > 0 {
                assert(dnew.to_multiset().contains(dnew[0])) by {
                    assert(dnew.contains(dnew[0]));
                }
                assert(frontier_contents(snew).contains(dnew[0]));
                assert(frontier_contents(s).contains(dnew[0])) by {
                    assert(frontier_contents(s) == entry_contents(s[0]).add(
                        frontier_contents(tail),
                    ));
                    assert(entry_contents(x).contains(dnew[0]) || frontier_contents(
                        tail,
                    ).contains(dnew[0]));
                    if entry_contents(x).contains(dnew[0]) {
                        assert(rest.drop_first() =~= rest.remove(0));
                        assert(rest.remove(0).to_multiset() =~= rest.to_multiset().remove(
                            rest[0],
                        ));
                        assert(rest.to_multiset().contains(rest[0])) by {
                            assert(rest.contains(rest[0]));
                        }
                        assert(entry_contents(s[0]).contains(dnew[0]));
                    }
                }
                assert(leq(v, dnew[0]));
            }
            crate::merge_spec::lemma_cons_sorted(leq, v, dnew);
        }
    }
}

/// Removing the head entry of a well-formed frontier leaves a well-formed
/// frontier.
pub proof fn lemma_frontier_drop_first<T>(leq: spec_fn(T, T) -> bool, s: Seq<(T, Seq<T>)>)
    requires
        frontier_sorted(leq, s),
        entries_ok(leq, s),
        s.len() > 0,
    ensures
        frontier_sorted(leq, s.drop_first()),
        entries_ok(leq, s.drop_first()),
{
    let el = entry_le(leq);
    assert forall|i: int, j: int| 0 <= i < j < s.drop_first().len() implies #[trigger] el(
        s.drop_first()[i],
        s.drop_first()[j],
    ) by {
        assert(el(s[i + 1], s[j + 1]));
    }
    assert forall|i: int| 0 <= i < s.drop_first().len() implies entry_ok(
        leq,
        #[trigger] s.drop_first()[i],
    ) by {
        assert(s.drop_first()[i] == s[i + 1]);
    }
}

/// After its frontier value is emitted, an entry's next pending element
/// heads an ascending stream of its own.
pub proof fn lemma_entry_ok_step<T>(leq: spec_fn(T, T) -> bool, e: (T, Seq<T>))
    requires
        entry_ok(leq, e),
        e.1.len() > 0,
    ensures
        entry_ok(leq, (e.1[0], e.1.drop_first())),
{
    let c0 = seq![e.0] + e.1;
    let c1 = seq![e.1[0]] + e.1.drop_first();
    assert(c1 =~= e.1);
    assert forall|i: int, j: int| 0 <= i < j < e.1.len() implies #[trigger] leq(
        e.1[i],
        e.1[j],
    ) by {
        assert(leq(c0[i + 1], c0[j + 1]));
    }
}

/// Appending an upper bound to a sorted sequence keeps it sorted.
pub proof fn lemma_sorted_push<T>(r: spec_fn(T, T) -> bool, s: Seq<T>, e: T)
    requires
        transitive(r),
        sorted_by(s, r),
        s.len() == 0 || r(s.last(), e),
    ensures
        sorted_by(s.push(e), r),
{
    assert forall|i: int, j: int| 0 <= i < j < s.push(e).len() implies #[trigger] r(
        s.push(e)[i],
        s.push(e)[j],
    ) by {
        if j < s.len() {
            assert(r(s[i], s[j]));
        } else {
            assert(s.push(e)[j] == e);
            if i < s.len() - 1 {
                assert(r(s[i], s.last()));
            }
        }
    }
}

/// The multiset union of streams counts their total length.
pub proof fn lemma_combined_len<T>(futs: Seq<Seq<T>>)
    ensures
        combined(futs).len() == total_len(futs),
    decreases futs.len(),
{
    broadcast use vstd::seq_lib::group_to_multiset_ensures;
    broadcast use vstd::multiset::group_multiset_axioms;

    if futs.len() > 0 {
        lemma_combined_len(futs.drop_first());
    }
}

/// Splitting a collection of streams into two groups splits its multiset
/// union: merging two k-way merges owes the same elements as one k-way
/// merge over both producer sets together.
pub proof fn lemma_combined_append<T>(f1: Seq<Seq<T>>, f2: Seq<Seq<T>>)
    ensures
        combined(f1 + f2) =~= combined(f1).add(combined(f2)),
    decreases f1.len(),
{
    broadcast use vstd::multiset::group_multiset_axioms;

    if f1.len() == 0 {
        assert(f1 + f2 =~= f2);
    } else {
        assert((f1 + f2)[0] == f1[0]);
        assert((f1 + f2).drop_first() =~= f1.drop_first() + f2);
        lemma_combined_append(f1.drop_first(), f2);
    }
}

/// A collection of exhausted streams owes nothing.
pub proof fn lemma_combined_empty<T>(futs: Seq<Seq<T>>)
    requires
        forall|i: int| 0 <= i < futs.len() ==> (#[trigger] futs[i]).len() == 0,
    ensures
        combined(futs) =~= Multiset::<T>::empty(),
        total_len(futs) == 0,
    decreases futs.len(),
{
    broadcast use vstd::seq_lib::group_to_multiset_ensures;
    broadcast use vstd::multiset::group_multiset_axioms;

    if futs.len() > 0 {
        assert(forall|i: int|
            0 <= i < futs.drop_first().len() ==> (#[trigger] futs.drop_first()[i]).len() == 0) by {
            assert(forall|i: int|
                0 <= i < futs.drop_first().len() ==> futs.drop_first()[i] == futs[i + 1]);
        }
        lemma_combined_empty(futs.drop_first());
        vstd::seq_lib::to_multiset_len(futs[0]);
    }
}

} // verus!
