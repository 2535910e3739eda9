use quasi_iter::dedup::Dedupable;
use quasi_iter::Producer;
use quasi_iter::Source;

fn drain(mut p: impl Producer<u32>) -> Vec<u32> {
    let mut out = Vec::new();
    while let Some(v) = p.next() {
        out.push(v);
    }
    out
}

#[test]
fn dedup() {
    let x = vec![1u32, 2, 2, 3, 4, 4, 5];
    let y = vec![1u32, 2, 3, 4, 5];

    assert!(drain(Source::new(x).dedup()) == y);

    assert!(Source::new(Vec::<u32>::new()).dedup().next() == None);

    let x = vec![1u32, 1, 1, 1, 1, 1];
    assert!(drain(Source::new(x).dedup()) == vec![1u32]);
}

#[test]
fn dedup_keeps_nonadjacent_repeats() {
    let x = vec![1u32, 1, 2, 1, 1, 3];
    assert!(drain(Source::new(x).dedup()) == vec![1u32, 2, 1, 3]);
}

#[test]
fn dedup_single_element() {
    let x = vec![7u32];
    assert!(drain(Source::new(x).dedup()) == vec![7u32]);
}
