use quasi_iter::merge_sorted::merge_sorted;
use quasi_iter::merge_sorted::merge_sorted_dyn;
use quasi_iter::Producer;
use quasi_iter::Source;

fn drain(mut p: impl Producer<u32>) -> Vec<u32> {
    let mut out = Vec::new();
    while let Some(v) = p.next() {
        out.push(v);
    }
    out
}

#[test]
fn merge_sorted_merge() {
    assert_eq!(
        merge_sorted(Source::new(Vec::<u32>::new()), Source::new(Vec::<u32>::new())).next(),
        None
    );

    let iter: Vec<u32> = (0u32..10).collect();

    assert!(drain(merge_sorted(Source::new(iter.clone()), Source::new(Vec::<u32>::new()))) == iter);

    assert!(drain(merge_sorted(Source::new(Vec::<u32>::new()), Source::new(iter.clone()))) == iter);

    let iter1 = vec![1u32, 3, 4, 5, 8];
    let iter2 = vec![1u32, 2, 6, 7, 8];

    assert!(
        drain(merge_sorted(Source::new(iter1), Source::new(iter2)))
            == vec![1u32, 1, 2, 3, 4, 5, 6, 7, 8, 8]
    );
}

#[test]
fn merge_dyn() {
    let producers: Vec<Source<u32>> = (0u32..5)
        .map(|i| Source::new((0u32..5).map(|j| i + j * 5).collect()))
        .collect();
    let expected: Vec<u32> = (0u32..25).collect();
    assert!(drain(merge_sorted_dyn(producers)) == expected);
}
