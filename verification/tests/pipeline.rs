use kmer_count::codec::hash_to_kmer;
use kmer_count::counter::count_kmers_partitioned;
use kmer_count::ingest::build_sequences;

#[test]
fn records_to_reported_counts() {
    let input: Vec<Vec<u8>> = vec![b">r1".to_vec(), b"ACGT".to_vec(), b"ACGT".to_vec()];
    let sequences = build_sequences(&input);
    assert_eq!(sequences, vec![b"ACGTACGT".to_vec()]);

    let table = count_kmers_partitioned(&sequences, 4, 2);
    assert_eq!(table.total(), 5);

    let mut reported: Vec<(Vec<u8>, u64)> = table
        .pairs()
        .into_iter()
        .map(|(key, count)| (hash_to_kmer(key, 4), count))
        .collect();
    reported.sort();
    assert_eq!(
        reported,
        vec![
            (b"ACGT".to_vec(), 2),
            (b"CGTA".to_vec(), 2),
            (b"GTAC".to_vec(), 1),
        ]
    );
}

#[test]
fn mixed_record_kinds() {
    let input: Vec<Vec<u8>> = vec![
        b"@q".to_vec(),
        b"AAAA".to_vec(),
        b"+".to_vec(),
        b"IIII".to_vec(),
        b"@q2".to_vec(),
        b"TTT".to_vec(),
    ];
    let sequences = build_sequences(&input);
    assert_eq!(sequences, vec![b"AAAA".to_vec(), b"TTT".to_vec()]);

    // k = 2: AAAA gives AA x3; TTT gives TT x2, canonical AA
    let table = count_kmers_partitioned(&sequences, 2, 3);
    assert_eq!(table.total(), 5);
    let reported: Vec<(Vec<u8>, u64)> = table
        .pairs()
        .into_iter()
        .map(|(key, count)| (hash_to_kmer(key, 2), count))
        .collect();
    assert_eq!(reported, vec![(b"AA".to_vec(), 5)]);
}
