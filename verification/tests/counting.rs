use kmer_count::canonical::{canonical_kmer, complement, revcomp};
use kmer_count::codec::hash_kmer;
use kmer_count::counter::{count_canonical_kmers, count_kmers_partitioned, count_sequences};

fn key_of(kmer: &[u8]) -> u64 {
    hash_kmer(canonical_kmer(kmer).as_slice())
}

#[test]
fn complement_bases() {
    assert_eq!(complement(b'A'), b'T');
    assert_eq!(complement(b'T'), b'A');
    assert_eq!(complement(b'C'), b'G');
    assert_eq!(complement(b'G'), b'C');
    assert_eq!(complement(b'N'), b'N');
    assert_eq!(complement(b'x'), b'x');
}

#[test]
fn revcomp_examples() {
    assert_eq!(revcomp(b"ACGT"), b"ACGT".to_vec());
    assert_eq!(revcomp(b"AAGG"), b"CCTT".to_vec());
    assert_eq!(revcomp(b"A"), b"T".to_vec());
    assert_eq!(revcomp(b""), b"".to_vec());
    assert_eq!(revcomp(b"ANT"), b"ANT".to_vec());
}

#[test]
fn canonical_examples() {
    assert_eq!(canonical_kmer(b"ACGT"), b"ACGT".to_vec());
    assert_eq!(canonical_kmer(b"TTTT"), b"AAAA".to_vec());
    assert_eq!(canonical_kmer(b"CGTA"), b"CGTA".to_vec());
    assert_eq!(canonical_kmer(b"TACG"), b"CGTA".to_vec());
}

#[test]
fn canonical_orientation_symmetry() {
    for w in [
        b"ACGT".to_vec(),
        b"AAAA".to_vec(),
        b"GATTACA".to_vec(),
        b"TTGCA".to_vec(),
        b"CCCCGGGG".to_vec(),
    ] {
        let rc = revcomp(&w);
        assert_eq!(canonical_kmer(&w), canonical_kmer(&rc));
    }
}

#[test]
fn windows_of_one_record() {
    // record ACGTACGT, k = 4: windows ACGT, CGTA, GTAC, TACG, ACGT
    let t = count_canonical_kmers(b"ACGTACGT", 4);
    assert_eq!(t.total(), 5);
    assert_eq!(t.count_of(key_of(b"ACGT")), 2);
    assert_eq!(t.count_of(key_of(b"CGTA")), 2);
    assert_eq!(t.count_of(key_of(b"TACG")), 2);
    assert_eq!(t.count_of(key_of(b"GTAC")), 1);
    assert_eq!(t.num_entries(), 3);
}

#[test]
fn short_sequence_has_zero_windows() {
    let t = count_canonical_kmers(b"ACG", 5);
    assert_eq!(t.total(), 0);
    assert_eq!(t.num_entries(), 0);
    let t = count_canonical_kmers(b"ACGT", 5);
    assert_eq!(t.total(), 0);
    let t = count_canonical_kmers(b"", 1);
    assert_eq!(t.total(), 0);
}

#[test]
fn window_conservation_across_sequences() {
    let seqs: Vec<Vec<u8>> = vec![
        b"ACGTACGT".to_vec(),
        b"A".to_vec(),
        b"GATTACA".to_vec(),
        b"".to_vec(),
        b"TTTTT".to_vec(),
    ];
    let k = 3usize;
    let expected: u64 = seqs
        .iter()
        .map(|s| if s.len() >= k { (s.len() - k + 1) as u64 } else { 0 })
        .sum();
    let t = count_kmers_partitioned(&seqs, k, 1);
    assert_eq!(t.total(), expected);
}

#[test]
fn partition_count_is_irrelevant() {
    let seqs: Vec<Vec<u8>> = vec![
        b"ACGTACGTAC".to_vec(),
        b"GGGTTTAAACCC".to_vec(),
        b"AT".to_vec(),
        b"GATTACAGATTACA".to_vec(),
        b"C".to_vec(),
        b"NNACGTNN".to_vec(),
    ];
    let mut reference: Vec<(u64, u64)> = count_kmers_partitioned(&seqs, 3, 1).pairs();
    reference.sort();
    for shards in [2usize, 8, seqs.len() + 5] {
        let mut got = count_kmers_partitioned(&seqs, 3, shards).pairs();
        got.sort();
        assert_eq!(got, reference);
    }
}

#[test]
fn no_sequences_no_counts() {
    let seqs: Vec<Vec<u8>> = Vec::new();
    let t = count_kmers_partitioned(&seqs, 3, 4);
    assert_eq!(t.total(), 0);
    assert_eq!(t.num_entries(), 0);
}

#[test]
fn window_of_the_whole_sequence() {
    let t = count_canonical_kmers(b"GATTACA", 7);
    assert_eq!(t.total(), 1);
    assert_eq!(t.count_of(key_of(b"GATTACA")), 1);
    assert_eq!(t.count_of(key_of(b"AAAAAAA")), 0);
}

#[test]
fn shard_counting_matches_whole() {
    let seqs: Vec<Vec<u8>> = vec![b"ACGTAC".to_vec(), b"TTGCAA".to_vec(), b"GGG".to_vec()];
    let whole = count_sequences(&seqs, 0, 3, 2);
    let mut a = count_sequences(&seqs, 0, 1, 2);
    let b = count_sequences(&seqs, 1, 3, 2);
    a.merge_from(&b);
    let mut w = whole.pairs();
    let mut m = a.pairs();
    w.sort();
    m.sort();
    assert_eq!(w, m);
}
