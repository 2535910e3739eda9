use quasi_iter::merge::merge_dyn;
use quasi_iter::merge::Mergable;
use quasi_iter::Producer;
use quasi_iter::Source;

fn drain(mut p: impl Producer<u32>) -> Vec<u32> {
    let mut out = Vec::new();
    while let Some(v) = p.next() {
        out.push(v);
    }
    out
}

#[test]
fn merge_merge() {
    assert_eq!(
        Source::new(Vec::<u32>::new())
            .merge(Source::new(Vec::<u32>::new()))
            .next(),
        None
    );

    let iter: Vec<u32> = (0u32..10).collect();

    assert!(drain(Source::new(iter.clone()).merge(Source::new(Vec::<u32>::new()))) == iter);

    assert!(drain(Source::new(Vec::<u32>::new()).merge(Source::new(iter.clone()))) == iter);

    let iter1 = vec![1u32, 3, 4, 5, 8];
    let iter2 = vec![1u32, 2, 6, 7, 8];

    assert!(
        drain(Source::new(iter1).merge(Source::new(iter2)))
            == vec![1u32, 1, 2, 3, 4, 5, 6, 7, 8, 8]
    );
}

#[test]
fn merge_dyn_test() {
    let producers: Vec<Source<u32>> = (0u32..5)
        .map(|i| Source::new((0u32..5).map(|j| i + j * 5).collect()))
        .collect();
    let expected: Vec<u32> = (0u32..25).collect();
    assert!(drain(merge_dyn(producers)) == expected);
}
