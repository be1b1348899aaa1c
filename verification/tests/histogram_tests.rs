use kmer_count::histogram::{
    aggregate_counts, aggregate_counts_partitioned, create_histogram, parse_count_line,
    TokenCounts,
};

fn lines(v: &[&[u8]]) -> Vec<Vec<u8>> {
    v.iter().map(|l| l.to_vec()).collect()
}

#[test]
fn parse_well_formed_lines() {
    assert_eq!(parse_count_line(b"ACGT 12"), Some((b"ACGT".to_vec(), 12)));
    assert_eq!(parse_count_line(b"  tok\t7  trailing"), Some((b"tok".to_vec(), 7)));
    assert_eq!(parse_count_line(b"x 0"), Some((b"x".to_vec(), 0)));
    assert_eq!(parse_count_line(b"x 4294967295"), Some((b"x".to_vec(), u32::MAX)));
}

#[test]
fn parse_accepts_a_leading_plus() {
    assert_eq!(parse_count_line(b"x +12"), Some((b"x".to_vec(), 12)));
    assert_eq!(parse_count_line(b"x +0"), Some((b"x".to_vec(), 0)));
    assert_eq!(parse_count_line(b"x +"), None);
    assert_eq!(parse_count_line(b"x ++1"), None);
    assert_eq!(parse_count_line(b"x 1+2"), None);
}

#[test]
fn zero_count_keeps_its_token() {
    let t = aggregate_counts(&lines(&[b"a 0", b"b 2"])).unwrap();
    assert_eq!(t.num_entries(), 2);
    assert_eq!(t.count_of(b"a"), 0);
    assert_eq!(t.count_of(b"b"), 2);
    let h = create_histogram(&t.counts());
    assert_eq!(h, vec![(0, 1), (2, 1)]);
}

#[test]
fn shard_count_is_irrelevant_for_aggregation() {
    let input = lines(&[b"a 2", b"b 3", b"a 4", b"c 0", b"b 1"]);
    for shards in [1usize, 2, 8, input.len() + 5] {
        let t = aggregate_counts_partitioned(&input, shards).unwrap();
        assert_eq!(t.num_entries(), 3);
        assert_eq!(t.count_of(b"a"), 6);
        assert_eq!(t.count_of(b"b"), 4);
        assert_eq!(t.count_of(b"c"), 0);
    }
    let bad = lines(&[b"a 2", b"oops"]);
    assert!(aggregate_counts_partitioned(&bad, 3).is_none());
}

#[test]
fn parse_malformed_lines() {
    assert_eq!(parse_count_line(b""), None);
    assert_eq!(parse_count_line(b"   "), None);
    assert_eq!(parse_count_line(b"tok"), None);
    assert_eq!(parse_count_line(b"tok abc"), None);
    assert_eq!(parse_count_line(b"tok 12x"), None);
    assert_eq!(parse_count_line(b"tok 4294967296"), None);
}

#[test]
fn aggregate_sums_equal_tokens() {
    let input = lines(&[b"a 2", b"b 3", b"a 4"]);
    let t = aggregate_counts(&input).unwrap();
    assert_eq!(t.count_of(b"a"), 6);
    assert_eq!(t.count_of(b"b"), 3);
    assert_eq!(t.count_of(b"c"), 0);
    assert_eq!(t.num_entries(), 2);
}

#[test]
fn aggregate_rejects_malformed_input() {
    let input = lines(&[b"a 2", b"oops", b"a 4"]);
    assert!(aggregate_counts(&input).is_none());
}

#[test]
fn merge_adds_totals() {
    let mut a = aggregate_counts(&lines(&[b"x 1", b"y 2"])).unwrap();
    let b = aggregate_counts(&lines(&[b"y 5", b"z 7"])).unwrap();
    a.merge_from(&b);
    assert_eq!(a.count_of(b"x"), 1);
    assert_eq!(a.count_of(b"y"), 7);
    assert_eq!(a.count_of(b"z"), 7);
}

#[test]
fn fresh_table_is_empty() {
    let t = TokenCounts::new();
    assert_eq!(t.num_entries(), 0);
    assert_eq!(t.count_of(b"anything"), 0);
}

#[test]
fn histogram_of_counts() {
    // counts [1,1,2,3,3,3] -> ascending pairs (1,2), (2,1), (3,3)
    let h = create_histogram(&vec![1, 1, 2, 3, 3, 3]);
    assert_eq!(h, vec![(1, 2), (2, 1), (3, 3)]);
}

#[test]
fn histogram_is_sorted_whatever_the_input_order() {
    let h = create_histogram(&vec![9, 4, 9, 1, 4, 9, 1]);
    assert_eq!(h, vec![(1, 2), (4, 2), (9, 3)]);
}

#[test]
fn histogram_of_nothing_is_empty() {
    let h = create_histogram(&Vec::new());
    assert!(h.is_empty());
}

#[test]
fn histogram_of_table_counts() {
    let t = aggregate_counts(&lines(&[b"a 1", b"b 1", b"c 2"])).unwrap();
    let mut h = create_histogram(&t.counts());
    h.sort();
    assert_eq!(h, vec![(1, 2), (2, 1)]);
}
