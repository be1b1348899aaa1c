use kmer_count::codec::{hash_kmer, hash_to_kmer};

#[test]
fn packed_value_is_two_bits_per_base() {
    // A=0, C=1, G=2, T=3, position 0 in the lowest bits
    assert_eq!(hash_kmer(b"A"), 0);
    assert_eq!(hash_kmer(b"C"), 1);
    assert_eq!(hash_kmer(b"G"), 2);
    assert_eq!(hash_kmer(b"T"), 3);
    assert_eq!(hash_kmer(b"ACGT"), 0 + 1 * 4 + 2 * 16 + 3 * 64);
    assert_eq!(hash_kmer(b""), 0);
}

#[test]
fn decode_reads_two_bits_per_position() {
    assert_eq!(hash_to_kmer(228, 4), b"ACGT".to_vec());
    assert_eq!(hash_to_kmer(0, 3), b"AAA".to_vec());
    assert_eq!(hash_to_kmer(3, 1), b"T".to_vec());
}

#[test]
fn round_trip_examples() {
    for w in [
        b"A".to_vec(),
        b"ACGT".to_vec(),
        b"TTTTTTTT".to_vec(),
        b"GATTACA".to_vec(),
        b"ACGTACGTACGTACGTACGTACGTACGTACGT".to_vec(), // 32 bases
    ] {
        let key = hash_kmer(&w);
        assert_eq!(hash_to_kmer(key, w.len()), w);
    }
}

#[test]
fn bytes_outside_the_alphabet_merge_with_a() {
    assert_eq!(hash_kmer(b"NN"), hash_kmer(b"AA"));
    assert_eq!(hash_kmer(b"ANT"), hash_kmer(b"AAT"));
}
