//! The mathematical model of the two-source streaming merge: the exact
//! sequence such a merge still owes, and the laws that hold of it — its
//! length, its multiset of elements, sortedness, identity on an empty side,
//! and associativity of repeated merging.

use vstd::prelude::*;
use vstd::multiset::Multiset;
use vstd::relations::{antisymmetric, sorted_by, strongly_connected, transitive};
use vstd::seq_lib::lemma_multiset_commutative;

verus! {

/// The exact stream a two-source merge still owes, given its buffered
/// element `buf`, the remaining elements `active` of the side pulled next,
/// and the remaining elements `passive` of the side the buffer came from.
///
/// One step pulls the head of `active`. If the active side is exhausted,
/// the buffer is emitted and the passive side is drained directly. If the
/// buffer compares strictly less than the pulled element, the buffer is
/// emitted, the pulled element takes its place, and the sides swap roles.
/// Otherwise the pulled element (less than or equal to the buffer) is
/// emitted and nothing else changes.
pub open spec fn buffered_merge<T>(
    leq: spec_fn(T, T) -> bool,
    buf: T,
    active: Seq<T>,
    passive: Seq<T>,
) -> Seq<T>
    decreases active.len() + passive.len(),
{
    if active.len() == 0 {
        seq![buf] + passive
    } else if !leq(active[0], buf) {
        seq![buf] + buffered_merge(leq, active[0], passive, active.drop_first())
    } else {
        seq![active[0]] + buffered_merge(leq, buf, active.drop_first(), passive)
    }
}

/// The exact stream a two-source merge of `a` and `b` yields: seeded with
/// `b`'s first element buffered and `a` as the side pulled first.
pub open spec fn merged<T>(leq: spec_fn(T, T) -> bool, a: Seq<T>, b: Seq<T>) -> Seq<T> {
    if b.len() == 0 {
        a
    } else {
        buffered_merge(leq, b[0], a, b.drop_first())
    }
}

/// Prepending a lower bound to a sorted sequence keeps it sorted.
pub proof fn lemma_cons_sorted<T>(leq: spec_fn(T, T) -> bool, x: T, s: Seq<T>)
    requires
        transitive(leq),
        sorted_by(s, leq),
        s.len() == 0 || leq(x, s[0]),
    ensures
        sorted_by(seq![x] + s, leq),
{
    let r = seq![x] + s;
    assert forall|i: int, j: int| 0 <= i < j < r.len() implies #[trigger] leq(r[i], r[j]) by {
        if i == 0 {
            if j > 1 {
                assert(leq(s[0], s[j - 1]));
            }
        } else {
            assert(leq(s[i - 1], s[j - 1]));
        }
    }
}

/// A buffered merge emits every element exactly once: its length is the sum
/// of what it holds, and its multiset is the union of buffer, active side,
/// and passive side.
pub proof fn lemma_buffered_merge_content<T>(
    leq: spec_fn(T, T) -> bool,
    buf: T,
    active: Seq<T>,
    passive: Seq<T>,
)
    ensures
        buffered_merge(leq, buf, active, passive).len() == 1 + active.len() + passive.len(),
        buffered_merge(leq, buf, active, passive).to_multiset() =~= active.to_multiset().add(
            passive.to_multiset(),
        ).insert(buf),
    decreases active.len() + passive.len(),
{
    broadcast use vstd::seq_lib::group_to_multiset_ensures;

    let r = buffered_merge(leq, buf, active, passive);
    if active.len() == 0 {
        lemma_multiset_commutative(seq![buf], passive);
        assert(seq![buf] =~= Seq::<T>::empty().push(buf));
        assert(active.to_multiset() =~= Multiset::<T>::empty());
        assert(r.to_multiset() =~= active.to_multiset().add(passive.to_multiset()).insert(buf));
    } else if !leq(active[0], buf) {
        lemma_buffered_merge_content(leq, active[0], passive, active.drop_first());
        lemma_multiset_commutative(
            seq![buf],
            buffered_merge(leq, active[0], passive, active.drop_first()),
        );
        assert(seq![buf] =~= Seq::<T>::empty().push(buf));
        assert(seq![active[0]] =~= Seq::<T>::empty().push(active[0]));
        assert(active =~= seq![active[0]] + active.drop_first());
        lemma_multiset_commutative(seq![active[0]], active.drop_first());
        assert(r.to_multiset() =~= active.to_multiset().add(passive.to_multiset()).insert(buf));
    } else {
        lemma_buffered_merge_content(leq, buf, active.drop_first(), passive);
        lemma_multiset_commutative(
            seq![active[0]],
            buffered_merge(leq, buf, active.drop_first(), passive),
        );
        assert(seq![buf] =~= Seq::<T>::empty().push(buf));
        assert(seq![active[0]] =~= Seq::<T>::empty().push(active[0]));
        assert(active =~= seq![active[0]] + active.drop_first());
        lemma_multiset_commutative(seq![active[0]], active.drop_first());
        assert(r.to_multiset() =~= active.to_multiset().add(passive.to_multiset()).insert(buf));
    }
}

/// The first element a buffered merge emits is its buffer or the head of
/// its active side.
pub proof fn lemma_buffered_merge_first<T>(
    leq: spec_fn(T, T) -> bool,
    buf: T,
    active: Seq<T>,
    passive: Seq<T>,
)
    ensures
        buffered_merge(leq, buf, active, passive).len() > 0,
        buffered_merge(leq, buf, active, passive)[0] == buf || (active.len() > 0
            && buffered_merge(leq, buf, active, passive)[0] == active[0]),
{
    lemma_buffered_merge_content(leq, buf, active, passive);
}

/// A buffered merge of sorted sides is sorted, provided the buffer does not
/// exceed the passive side it was pulled from.
pub proof fn lemma_buffered_merge_sorted<T>(
    leq: spec_fn(T, T) -> bool,
    buf: T,
    active: Seq<T>,
    passive: Seq<T>,
)
    requires
        strongly_connected(leq),
        transitive(leq),
        sorted_by(active, leq),
        sorted_by(seq![buf] + passive, leq),
    ensures
        sorted_by(buffered_merge(leq, buf, active, passive), leq),
    decreases active.len() + passive.len(),
{
    let r = buffered_merge(leq, buf, active, passive);
    assert(sorted_by(passive, leq)) by {
        let c = seq![buf] + passive;
        assert forall|i: int, j: int| 0 <= i < j < passive.len() implies #[trigger] leq(
            passive[i],
            passive[j],
        ) by {
            assert(leq(c[i + 1], c[j + 1]));
        }
    }
    if active.len() == 0 {
    } else if !leq(active[0], buf) {
        let rest = buffered_merge(leq, active[0], passive, active.drop_first());
        assert(sorted_by(active.drop_first(), leq)) by {
            assert forall|i: int, j: int| 0 <= i < j < active.drop_first().len() implies #[trigger] leq(
                active.drop_first()[i],
                active.drop_first()[j],
            ) by {
                assert(leq(active[i + 1], active[j + 1]));
            }
        }
        assert(sorted_by(seq![active[0]] + active.drop_first(), leq)) by {
            assert(seq![active[0]] + active.drop_first() =~= active);
        }
        lemma_buffered_merge_sorted(leq, active[0], passive, active.drop_first());
        lemma_buffered_merge_first(leq, active[0], passive, active.drop_first());
        assert(leq(buf, active[0]));
        if passive.len() > 0 {
            assert(leq(buf, passive[0])) by {
                let c = seq![buf] + passive;
                assert(leq(c[0], c[1]));
            }
        }
        assert(leq(buf, rest[0]));
        lemma_cons_sorted(leq, buf, rest);
        assert(r =~= seq![buf] + rest);
    } else {
        let rest = buffered_merge(leq, buf, active.drop_first(), passive);
        assert(sorted_by(active.drop_first(), leq)) by {
            assert forall|i: int, j: int| 0 <= i < j < active.drop_first().len() implies #[trigger] leq(
                active.drop_first()[i],
                active.drop_first()[j],
            ) by {
                assert(leq(active[i + 1], active[j + 1]));
            }
        }
        lemma_buffered_merge_sorted(leq, buf, active.drop_first(), passive);
        lemma_buffered_merge_first(leq, buf, active.drop_first(), passive);
        assert(leq(active[0], buf));
        if active.drop_first().len() > 0 {
            assert(leq(active[0], active.drop_first()[0])) by {
                assert(leq(active[0], active[1]));
            }
        }
        assert(leq(active[0], rest[0]));
        lemma_cons_sorted(leq, active[0], rest);
        assert(r =~= seq![active[0]] + rest);
    }
}

/// A two-source merge emits exactly the elements of both inputs: its length
/// is the sum of theirs and its multiset is their multiset union.
pub proof fn lemma_merged_content<T>(leq: spec_fn(T, T) -> bool, a: Seq<T>, b: Seq<T>)
    ensures
        merged(leq, a, b).len() == a.len() + b.len(),
        merged(leq, a, b).to_multiset() =~= a.to_multiset().add(b.to_multiset()),
{
    broadcast use vstd::seq_lib::group_to_multiset_ensures;

    if b.len() == 0 {
        assert(b.to_multiset() =~= Multiset::<T>::empty());
    } else {
        lemma_buffered_merge_content(leq, b[0], a, b.drop_first());
        assert(b =~= seq![b[0]] + b.drop_first());
        lemma_multiset_commutative(seq![b[0]], b.drop_first());
        assert(seq![b[0]] =~= Seq::<T>::empty().push(b[0]));
    }
}

/// A two-source merge of sorted inputs is sorted.
pub proof fn lemma_merged_sorted<T>(leq: spec_fn(T, T) -> bool, a: Seq<T>, b: Seq<T>)
    requires
        strongly_connected(leq),
        transitive(leq),
        sorted_by(a, leq),
        sorted_by(b, leq),
    ensures
        sorted_by(merged(leq, a, b), leq),
{
    if b.len() > 0 {
        assert(sorted_by(seq![b[0]] + b.drop_first(), leq)) by {
            assert(seq![b[0]] + b.drop_first() =~= b);
        }
        lemma_buffered_merge_sorted(leq, b[0], a, b.drop_first());
    }
}

/// Merging with an empty producer on either side is the identity.
pub proof fn lemma_merged_identity<T>(leq: spec_fn(T, T) -> bool, a: Seq<T>)
    ensures
        merged(leq, a, Seq::<T>::empty()) == a,
        merged(leq, Seq::<T>::empty(), a) == a,
{
    if a.len() > 0 {
        assert(merged(leq, Seq::<T>::empty(), a) =~= a);
    }
}

/// Two sequences sorted under an antisymmetric order with the same multiset
/// of elements are the same sequence: a merge's output is fully determined
/// by its element multiset and the ordering strategy.
pub proof fn lemma_sorted_multiset_unique<T>(leq: spec_fn(T, T) -> bool, s: Seq<T>, t: Seq<T>)
    requires
        antisymmetric(leq),
        sorted_by(s, leq),
        sorted_by(t, leq),
        s.to_multiset() == t.to_multiset(),
    ensures
        s == t,
    decreases s.len(),
{
    broadcast use vstd::seq_lib::group_to_multiset_ensures;

    vstd::seq_lib::to_multiset_len(s);
    vstd::seq_lib::to_multiset_len(t);
    if s.len() == 0 {
        assert(t.len() == 0);
        assert(s =~= t);
    } else {
        assert(t.len() == s.len());
        assert(t.to_multiset().count(s[0]) > 0);
        assert(t.contains(s[0]));
        let j = choose|j: int| 0 <= j < t.len() && t[j] == s[0];
        assert(j == 0 || leq(t[0], t[j]));
        assert(s.to_multiset().count(t[0]) > 0);
        assert(s.contains(t[0]));
        let i = choose|i: int| 0 <= i < s.len() && s[i] == t[0];
        assert(i == 0 || leq(s[0], s[i]));
        assert(s[0] == t[0]);
        assert(s.drop_first().to_multiset() == t.drop_first().to_multiset()) by {
            assert(s.drop_first() =~= s.remove(0));
            assert(t.drop_first() =~= t.remove(0));
            assert(s.remove(0).to_multiset() =~= s.to_multiset().remove(s[0]));
            assert(t.remove(0).to_multiset() =~= t.to_multiset().remove(t[0]));
        }
        assert(sorted_by(s.drop_first(), leq)) by {
            assert forall|p: int, q: int| 0 <= p < q < s.drop_first().len() implies #[trigger] leq(
                s.drop_first()[p],
                s.drop_first()[q],
            ) by {
                assert(leq(s[p + 1], s[q + 1]));
            }
        }
        assert(sorted_by(t.drop_first(), leq)) by {
            assert forall|p: int, q: int| 0 <= p < q < t.drop_first().len() implies #[trigger] leq(
                t.drop_first()[p],
                t.drop_first()[q],
            ) by {
                assert(leq(t[p + 1], t[q + 1]));
            }
        }
        lemma_sorted_multiset_unique(leq, s.drop_first(), t.drop_first());
        assert forall|k: int| 0 <= k < s.len() implies s[k] == t[k] by {
            if k > 0 {
                assert(s[k] == s.drop_first()[k - 1]);
                assert(t[k] == t.drop_first()[k - 1]);
            }
        }
        assert(s =~= t);
    }
}

/// Feeding a merge's output back as one input of a further merge with a
/// third sorted sequence yields the full three-way sorted union.
pub proof fn lemma_merged_three_way<T>(leq: spec_fn(T, T) -> bool, a: Seq<T>, b: Seq<T>, c: Seq<T>)
    requires
        strongly_connected(leq),
        transitive(leq),
        sorted_by(a, leq),
        sorted_by(b, leq),
        sorted_by(c, leq),
    ensures
        sorted_by(merged(leq, merged(leq, a, b), c), leq),
        merged(leq, merged(leq, a, b), c).to_multiset() =~= a.to_multiset().add(
            b.to_multiset(),
        ).add(c.to_multiset()),
        merged(leq, merged(leq, a, b), c).len() == a.len() + b.len() + c.len(),
{
    lemma_merged_sorted(leq, a, b);
    lemma_merged_content(leq, a, b);
    lemma_merged_sorted(leq, merged(leq, a, b), c);
    lemma_merged_content(leq, merged(leq, a, b), c);
}

/// Repeated two-source merging is associative: under an antisymmetric
/// ordering strategy the grouping of sorted inputs does not matter.
pub proof fn lemma_merged_assoc<T>(leq: spec_fn(T, T) -> bool, a: Seq<T>, b: Seq<T>, c: Seq<T>)
    requires
        strongly_connected(leq),
        transitive(leq),
        antisymmetric(leq),
        sorted_by(a, leq),
        sorted_by(b, leq),
        sorted_by(c, leq),
    ensures
        merged(leq, merged(leq, a, b), c) == merged(leq, a, merged(leq, b, c)),
{
    lemma_merged_three_way(leq, a, b, c);
    lemma_merged_sorted(leq, b, c);
    lemma_merged_content(leq, b, c);
    lemma_merged_sorted(leq, a, merged(leq, b, c));
    lemma_merged_content(leq, a, merged(leq, b, c));
    assert(merged(leq, merged(leq, a, b), c).to_multiset() =~= merged(
        leq,
        a,
        merged(leq, b, c),
    ).to_multiset());
    lemma_sorted_multiset_unique(
        leq,
        merged(leq, merged(leq, a, b), c),
        merged(leq, a, merged(leq, b, c)),
    );
}

} // verus!

