use quasi_iter::merge::merge_dyn;
use quasi_iter::merge::merge_dyn_by;
use quasi_iter::merge::merge_dyn_by_key;
use quasi_iter::merge::Mergable;
use quasi_iter::merge_sorted::merge_sorted_by;
use quasi_iter::merge_sorted::merge_sorted_by_key;
use quasi_iter::merge_sorted::merge_sorted_dyn;
use quasi_iter::order::IdentityKey;
use quasi_iter::order::NaturalComparator;
use quasi_iter::order::PairFirstKey;
use quasi_iter::order::ReverseComparator;
use quasi_iter::Producer;
use quasi_iter::Source;

fn drain<T>(mut p: impl Producer<T>) -> Vec<T> {
    let mut out = Vec::new();
    while let Some(v) = p.next() {
        out.push(v);
    }
    out
}

#[test]
fn kway_sorted_union() {
    let producers = vec![
        Source::new(vec![1u32, 4, 9]),
        Source::new(vec![2u32, 5]),
        Source::new(vec![3u32]),
    ];
    assert!(drain(merge_sorted_dyn(producers)) == vec![1u32, 2, 3, 4, 5, 9]);
}

#[test]
fn kway_no_producers() {
    let producers: Vec<Source<u32>> = Vec::new();
    let mut m = merge_sorted_dyn(producers);
    assert!(m.next() == None);
    assert!(m.next() == None);
}

#[test]
fn kway_only_empty_producers() {
    let producers = vec![
        Source::new(Vec::<u32>::new()),
        Source::new(Vec::<u32>::new()),
        Source::new(Vec::<u32>::new()),
    ];
    let mut m = merge_dyn(producers);
    assert!(m.next() == None);
    assert!(m.next() == None);
}

#[test]
fn kway_equal_keys_across_sources() {
    let producers = vec![
        Source::new(vec![1u32, 3, 3]),
        Source::new(vec![3u32, 3, 7]),
    ];
    assert!(drain(merge_sorted_dyn(producers)) == vec![1u32, 3, 3, 3, 3, 7]);
}

#[test]
fn compose_matches_flat() {
    let a = vec![1u32, 4, 9];
    let b = vec![2u32, 5];
    let c = vec![0u32, 6];
    let m1 = merge_sorted_dyn(vec![Source::new(a.clone()), Source::new(b.clone())]);
    let m2 = merge_sorted_dyn(vec![Source::new(c.clone())]);
    let composed = drain(m1.merge(m2));
    let flat = drain(merge_sorted_dyn(vec![
        Source::new(a),
        Source::new(b),
        Source::new(c),
    ]));
    assert!(composed == flat);
    assert!(composed == vec![0u32, 1, 2, 4, 5, 6, 9]);
}

#[test]
fn compose_after_partial_consumption() {
    let mut m1 = merge_sorted_dyn(vec![
        Source::new(vec![1u32, 4]),
        Source::new(vec![2u32, 8]),
    ]);
    assert!(m1.next() == Some(1));
    let m2 = merge_sorted_dyn(vec![Source::new(vec![3u32, 5])]);
    assert!(drain(m1.merge(m2)) == vec![2u32, 3, 4, 5, 8]);
}

#[test]
fn three_way_pair_merge() {
    let a = Source::new(vec![1u32, 5, 9]);
    let b = Source::new(vec![2u32, 6]);
    let c = Source::new(vec![0u32, 7]);
    let m = a.merge(b).merge(c);
    assert!(drain(m) == vec![0u32, 1, 2, 5, 6, 7, 9]);
}

#[test]
fn pair_merge_by_reverse() {
    let a = Source::new(vec![9u32, 5, 1]);
    let b = Source::new(vec![8u32, 2]);
    let m = merge_sorted_by(a, b, ReverseComparator);
    assert!(drain(m) == vec![9u32, 8, 5, 2, 1]);
}

#[test]
fn pair_merge_by_key_pairs() {
    let a = Source::new(vec![(1u32, 10u32), (4, 40)]);
    let b = Source::new(vec![(2u32, 20u32), (9, 90)]);
    let m = merge_sorted_by_key(a, b, PairFirstKey);
    assert!(drain(m) == vec![(1u32, 10u32), (2, 20), (4, 40), (9, 90)]);
}

#[test]
fn mergable_by_and_by_key() {
    let out = drain(Source::new(vec![7u32, 3]).merge_by(Source::new(vec![5u32]), ReverseComparator));
    assert!(out == vec![7u32, 5, 3]);

    let out = drain(Source::new(vec![1u32, 6]).merge_by_key(Source::new(vec![2u32, 4]), IdentityKey));
    assert!(out == vec![1u32, 2, 4, 6]);
}

#[test]
fn kway_by_reverse() {
    let producers = vec![
        Source::new(vec![9u32, 4, 0]),
        Source::new(vec![7u32, 5]),
    ];
    assert!(drain(merge_dyn_by(producers, ReverseComparator)) == vec![9u32, 7, 5, 4, 0]);
}

#[test]
fn kway_by_key_pairs() {
    let producers = vec![
        Source::new(vec![(1u32, 0u32), (5, 0)]),
        Source::new(vec![(2u32, 1u32), (3, 1)]),
    ];
    assert!(
        drain(merge_dyn_by_key(producers, PairFirstKey))
            == vec![(1u32, 0u32), (2, 1), (3, 1), (5, 0)]
    );
}

#[test]
fn natural_comparator_matches_natural_order() {
    let a = Source::new(vec![1u32, 3, 4, 5, 8]);
    let b = Source::new(vec![1u32, 2, 6, 7, 8]);
    let by = drain(merge_sorted_by(a, b, NaturalComparator));
    assert!(by == vec![1u32, 1, 2, 3, 4, 5, 6, 7, 8, 8]);
}

#[test]
fn merge_length_is_sum_of_inputs() {
    let out = drain(Source::new(vec![1u32, 1, 1]).merge(Source::new(vec![1u32, 1])));
    assert!(out == vec![1u32, 1, 1, 1, 1]);
}
