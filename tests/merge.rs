use mini_lsm::merge::{merge_runs, MergeIterator};

fn run(pairs: &[(&str, &str)]) -> Vec<(Vec<u8>, Vec<u8>)> {
    pairs.iter().map(|(k, v)| (k.as_bytes().to_vec(), v.as_bytes().to_vec())).collect()
}

#[test]
fn merge_lowest_index_wins() {
    let sources = vec![
        run(&[("b", "new-b"), ("d", "new-d")]),
        run(&[("a", "old-a"), ("b", "old-b"), ("e", "old-e")]),
        run(&[("b", "oldest-b"), ("c", "oldest-c"), ("d", "oldest-d")]),
    ];
    let mut it = MergeIterator::create(sources);
    let mut got = Vec::new();
    while it.is_valid() {
        got.push((String::from_utf8(it.key().to_vec()).unwrap(), String::from_utf8(it.value().to_vec()).unwrap()));
        it.next();
    }
    let want: Vec<(String, String)> = [("a", "old-a"), ("b", "new-b"), ("c", "oldest-c"), ("d", "new-d"), ("e", "old-e")]
        .iter()
        .map(|(k, v)| (k.to_string(), v.to_string()))
        .collect();
    assert_eq!(got, want);
}

#[test]
fn merge_of_nothing_is_empty() {
    let it = MergeIterator::create(vec![]);
    assert!(!it.is_valid());
    assert!(merge_runs(&vec![run(&[]), run(&[])]).is_empty());
}

#[test]
fn merge_keeps_tombstones() {
    let out = merge_runs(&vec![run(&[("k", "")]), run(&[("k", "v")])]);
    assert_eq!(out, run(&[("k", "")]));
}
